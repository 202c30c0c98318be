//! Pages, and the links and categories that their wikitext holds.

use crate::anchor::{
    parse_chars, parse_token, token_at, token_range, Anchor, AnchorModel,
};
use crate::category::Category;
use crate::text::{
    chars_of, find, find_from, find_in, is_match_at, lemma_find_from, matches_at,
    rfind, rfind_in, slice_of, string_of, trim, trimmed,
};
use vstd::prelude::*;

verus! {

/// A page of the dump with the links and the categories found in its text.
#[derive(Clone, Debug, Default, PartialEq)]
pub struct Page {
    pub title: String,
    pub id: String,
    pub anchors: Vec<Anchor>,
    pub categories: Vec<Category>,
}

/// What a `Page` stands for.
pub struct PageModel {
    pub title: Seq<char>,
    pub id: Seq<char>,
    pub anchors: Seq<AnchorModel>,
    pub categories: Seq<Seq<char>>,
}

/// The links that a list of `Anchor`s stands for.
pub open spec fn anchor_models(anchors: Seq<Anchor>) -> Seq<AnchorModel> {
    anchors.map_values(|a: Anchor| a@)
}

/// The names that a list of `Category`s stands for.
pub open spec fn category_models(categories: Seq<Category>) -> Seq<Seq<char>> {
    categories.map_values(|c: Category| c@)
}

impl View for Page {
    type V = PageModel;

    open spec fn view(&self) -> PageModel {
        PageModel {
            title: self.title@,
            id: self.id@,
            anchors: anchor_models(self.anchors@),
            categories: category_models(self.categories@),
        }
    }
}

/// The heading that parts the text of a page from its references.
pub open spec fn references_heading() -> Seq<char> {
    "==References=="@
}

/// The part of a page in which links are looked for: what stands before the
/// last references heading, or the whole page where there is none.
pub open spec fn link_part(page: Seq<char>) -> Seq<char> {
    match rfind(page, references_heading()) {
        Some(i) => page.take(i),
        None => page,
    }
}

/// The part of a page in which categories are looked for: what stands from
/// the last references heading on, or the whole page where there is none.
pub open spec fn category_part(page: Seq<char>) -> Seq<char> {
    match rfind(page, references_heading()) {
        Some(i) => page.skip(i),
        None => page,
    }
}

/// The link that opens at `begin`, where `[[` stands. A token of white space
/// alone gives none.
pub open spec fn link_at(body: Seq<char>, begin: int) -> Option<AnchorModel> {
    match token_at(body, begin) {
        Some(t) => if trim(t).len() == 0 {
            None
        } else {
            Some(parse_token(t))
        },
        None => None,
    }
}

/// The links of `body` from position `from` on, in the order in which they
/// open. The text is read from left to right, and the two characters of a
/// `[[` are not read again.
pub open spec fn links_from(body: Seq<char>, from: int) -> Seq<AnchorModel>
    decreases body.len() - from,
{
    if from < 0 || from + 2 > body.len() {
        Seq::empty()
    } else if matches_at(body, seq!['[', '['], from) {
        match link_at(body, from) {
            Some(a) => seq![a] + links_from(body, from + 2),
            None => links_from(body, from + 2),
        }
    } else {
        links_from(body, from + 1)
    }
}

/// The category named by the link that opens at `begin`, where `[[` stands:
/// what follows `Category:` up to the first bar of the token, or up to its
/// end.
pub open spec fn category_at(body: Seq<char>, begin: int) -> Option<Seq<char>> {
    if matches_at(body, "Category:"@, begin + 2) {
        match find_from(body, seq![']', ']'], begin + 2) {
            Some(end) => {
                let token = body.subrange(begin + 2, end);
                match find(token, seq!['|']) {
                    Some(bar) => Some(token.subrange(9, bar)),
                    None => Some(token.skip(9)),
                }
            },
            None => None,
        }
    } else {
        None
    }
}

/// The categories of `body` from position `from` on, in the order in which
/// their links open.
pub open spec fn categories_from(body: Seq<char>, from: int) -> Seq<Seq<char>>
    decreases body.len() - from,
{
    if from < 0 || from + 2 > body.len() {
        Seq::empty()
    } else if matches_at(body, seq!['[', '['], from) {
        match category_at(body, from) {
            Some(c) => seq![c] + categories_from(body, from + 2),
            None => categories_from(body, from + 2),
        }
    } else {
        categories_from(body, from + 1)
    }
}

/// The links of a page.
pub open spec fn page_links(page: Seq<char>) -> Seq<AnchorModel> {
    links_from(link_part(page), 0)
}

/// The categories of a page.
pub open spec fn page_categories(page: Seq<char>) -> Seq<Seq<char>> {
    categories_from(category_part(page), 0)
}

/// Links are read before the last references heading and categories from it
/// on: where a page is `head` followed by `tail`, and its last references
/// heading opens `tail`, its links are those of `head` and its categories
/// those of `tail`.
pub proof fn lemma_links_before_categories_after(head: Seq<char>, tail: Seq<char>)
    requires
        rfind(head + tail, references_heading()) == Some(head.len() as int),
    ensures
        page_links(head + tail) == links_from(head, 0),
        page_categories(head + tail) == categories_from(tail, 0),
{
    assert((head + tail).take(head.len() as int) =~= head);
    assert((head + tail).skip(head.len() as int) =~= tail);
}

/// A page without a references heading is read whole, for both.
pub proof fn lemma_without_references(page: Seq<char>)
    requires
        rfind(page, references_heading()) is None,
    ensures
        page_links(page) == links_from(page, 0),
        page_categories(page) == categories_from(page, 0),
{
}

/// The links of `body`, in order.
pub fn links_in(body: &Vec<char>) -> (r: Vec<Anchor>)
    ensures
        anchor_models(r@) == links_from(body@, 0),
{
    let open: Vec<char> = vec!['[', '['];
    assert(open@ =~= seq!['[', '[']);
    let mut out: Vec<Anchor> = Vec::new();
    let mut i: usize = 0;
    assert(anchor_models(out@) =~= Seq::empty());
    while body.len() >= 2 && i <= body.len() - 2
        invariant
            open@ == seq!['[', '['],
            links_from(body@, 0) == anchor_models(out@) + links_from(body@, i as int),
        decreases body.len() - i,
    {
        if is_match_at(body, &open, i) {
            match token_range(body, i) {
                Some((from, to)) => {
                    let token = slice_of(body, from, to);
                    if trimmed(&token).len() > 0 {
                        let a = parse_chars(&token);
                        let ghost before = out@;
                        out.push(a);
                        assert(anchor_models(out@) =~= anchor_models(before).push(a@));
                        assert(anchor_models(before) + (seq![a@] + links_from(body@, i + 2))
                            =~= anchor_models(out@) + links_from(body@, i + 2));
                    }
                },
                None => {},
            }
            i += 2;
        } else {
            i += 1;
        }
    }
    assert(anchor_models(out@) + Seq::<AnchorModel>::empty() =~= anchor_models(out@));
    out
}

/// The category named by the link that opens at `begin`.
fn category_in(body: &Vec<char>, begin: usize) -> (r: Option<Category>)
    requires
        matches_at(body@, seq!['[', '['], begin as int),
    ensures
        match category_at(body@, begin as int) {
            Some(c) => r matches Some(cat) && cat@ == c,
            None => r is None,
        },
{
    let prefix = chars_of("Category:");
    assert(begin + 2 <= body.len()) by {
        assert(seq!['[', '['].len() == 2);
    }
    if !is_match_at(body, &prefix, begin + 2) {
        return None;
    }
    let close: Vec<char> = vec![']', ']'];
    assert(close@ =~= seq![']', ']']);
    match find_in(body, &close, begin + 2) {
        Some(end) => {
            proof {
                reveal_strlit("Category:");
                lemma_find_from(body@, close@, begin + 2);
                let p = body@.subrange(begin + 2, begin + 11);
                assert(p == "Category:"@);
                assert forall|k: int| begin + 2 <= k < begin + 11 implies body@[k] != ']' by {
                    assert(p[k - begin - 2] == body@[k]);
                }
                if end < begin + 11 {
                    assert(body@.subrange(end as int, end + 2)[0] == body@[end as int]);
                    assert(false);
                }
            }
            let token = slice_of(body, begin + 2, end);
            let bar: Vec<char> = vec!['|'];
            assert(bar@ =~= seq!['|']);
            match find_in(&token, &bar, 0) {
                Some(at) => {
                    proof {
                        lemma_find_from(token@, bar@, 0);
                        reveal_strlit("Category:");
                        let p = body@.subrange(begin + 2, begin + 11);
                        assert(p == "Category:"@);
                        if at < 9 {
                            assert(token@.subrange(at as int, at + 1)[0] == token@[at as int]);
                            assert(p[at as int] == token@[at as int]);
                            assert(false);
                        }
                    }
                    Some(Category(string_of(&slice_of(&token, 9, at))))
                },
                None => {
                    assert(token@.subrange(9, token.len() as int) =~= token@.skip(9));
                    Some(Category(string_of(&slice_of(&token, 9, token.len()))))
                },
            }
        },
        None => None,
    }
}

/// The categories of `body`, in order.
pub fn categories_in(body: &Vec<char>) -> (r: Vec<Category>)
    ensures
        category_models(r@) == categories_from(body@, 0),
{
    let open: Vec<char> = vec!['[', '['];
    assert(open@ =~= seq!['[', '[']);
    let mut out: Vec<Category> = Vec::new();
    let mut i: usize = 0;
    assert(category_models(out@) =~= Seq::empty());
    while body.len() >= 2 && i <= body.len() - 2
        invariant
            open@ == seq!['[', '['],
            categories_from(body@, 0) == category_models(out@) + categories_from(
                body@,
                i as int,
            ),
        decreases body.len() - i,
    {
        if is_match_at(body, &open, i) {
            match category_in(body, i) {
                Some(c) => {
                    let ghost before = out@;
                    out.push(c);
                    assert(category_models(out@) =~= category_models(before).push(c@));
                    assert(category_models(before) + (seq![c@] + categories_from(body@, i + 2))
                        =~= category_models(out@) + categories_from(body@, i + 2));
                },
                None => {},
            }
            i += 2;
        } else {
            i += 1;
        }
    }
    assert(category_models(out@) + Seq::<Seq<char>>::empty() =~= category_models(out@));
    out
}

impl Page {
    /// A page with the links and the categories of its text.
    pub fn new(title: String, id: String, page: &str) -> (p: Page)
        ensures
            p@ == (PageModel {
                title: title@,
                id: id@,
                anchors: page_links(page@),
                categories: page_categories(page@),
            }),
    {
        Page {
            title,
            id,
            anchors: Page::extract_anchors(page),
            categories: Page::extract_categories(page),
        }
    }

    /// The title of the page.
    pub fn title_stripped(&self) -> (s: String)
        ensures
            s@ == self@.title,
    {
        self.title.clone()
    }

    /// The categories that the text of a page names, in order, read from the
    /// last references heading on.
    pub fn extract_categories(page: &str) -> (r: Vec<Category>)
        ensures
            category_models(r@) == page_categories(page@),
    {
        let text = chars_of(page);
        let heading = chars_of("==References==");
        match rfind_in(&text, &heading) {
            Some(i) => {
                let part = slice_of(&text, i, text.len());
                assert(text@.subrange(i as int, text.len() as int) =~= text@.skip(i as int));
                categories_in(&part)
            },
            None => categories_in(&text),
        }
    }

    /// The links in the text of a page, in order, read up to the last
    /// references heading.
    pub fn extract_anchors(page: &str) -> (r: Vec<Anchor>)
        ensures
            anchor_models(r@) == page_links(page@),
    {
        let text = chars_of(page);
        let heading = chars_of("==References==");
        match rfind_in(&text, &heading) {
            Some(i) => {
                let part = slice_of(&text, 0, i);
                assert(text@.subrange(0, i as int) =~= text@.take(i as int));
                links_in(&part)
            },
            None => links_in(&text),
        }
    }
}

} // verus!
