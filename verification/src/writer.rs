//! The lines that report a page: its categories or its links, separated by
//! tabs or as JSON.

use crate::anchor::AnchorModel;
use crate::page::{Page, PageModel};
use crate::text::{append, chars_of, join, joined, string_of, views};
use vstd::prelude::*;

verus! {

/// `s` with a backslash before each quotation mark.
pub open spec fn escaped(s: Seq<char>) -> Seq<char>
    decreases s.len(),
{
    if s.len() == 0 {
        Seq::empty()
    } else if s.last() == '"' {
        escaped(s.drop_last()) + seq!['\\', '"']
    } else {
        escaped(s.drop_last()).push(s.last())
    }
}

/// `s` between quotation marks, with its own quotation marks escaped.
pub open spec fn quoted(s: Seq<char>) -> Seq<char> {
    seq!['"'] + escaped(s) + seq!['"']
}

/// Each of the texts between quotation marks.
pub open spec fn all_quoted(items: Seq<Seq<char>>) -> Seq<Seq<char>> {
    items.map_values(|s: Seq<char>| quoted(s))
}

/// The pages that the links lead to.
pub open spec fn targets(anchors: Seq<AnchorModel>) -> Seq<Seq<char>> {
    anchors.map_values(|a: AnchorModel| a.target())
}

/// The line of a page with its categories, separated by tabs.
pub open spec fn category_tsv(page: PageModel) -> Seq<char> {
    page.id + seq!['\t'] + page.title + seq!['\t'] + join(
        all_quoted(page.categories),
        seq![','],
    ) + seq!['\n']
}

/// The line of a page with a list under the key `key`, as JSON.
pub open spec fn jsonl(page: PageModel, key: Seq<char>, items: Seq<Seq<char>>) -> Seq<char> {
    "{ \"title\": \""@ + page.title + "\", \"id\": "@ + page.id + ", \""@ + key + "\": ["@ + join(
        all_quoted(items),
        seq![',', ' '],
    ) + "] },\n"@
}

/// The line of one link of a page, separated by tabs: the id and the title
/// of the page, the text that shows and the page it leads to.
pub open spec fn anchor_line(page: PageModel, a: AnchorModel) -> Seq<char> {
    page.id + seq!['\t'] + page.title + seq!['\t'] + a.shown() + seq!['\t'] + a.target()
        + seq!['\n']
}

/// The lines of the first `n` links of a page.
pub open spec fn anchor_lines(page: PageModel, n: int) -> Seq<char>
    decreases n,
{
    if n <= 0 {
        Seq::empty()
    } else {
        anchor_lines(page, n - 1) + anchor_line(page, page.anchors[n - 1])
    }
}

/// `s` with a backslash before each quotation mark, between quotation marks.
pub fn quote(s: &str) -> (r: Vec<char>)
    ensures
        r@ == quoted(s@),
{
    let chars = chars_of(s);
    let mut out: Vec<char> = Vec::new();
    out.push('"');
    let mut i: usize = 0;
    assert(chars@.take(0) =~= Seq::<char>::empty());
    while i < chars.len()
        invariant
            i <= chars.len(),
            out@ == seq!['"'] + escaped(chars@.take(i as int)),
        decreases chars.len() - i,
    {
        proof {
            assert(chars@.take(i + 1).drop_last() =~= chars@.take(i as int));
            assert(chars@.take(i + 1).last() == chars@[i as int]);
        }
        if chars[i] == '"' {
            out.push('\\');
            out.push('"');
            assert(out@ =~= seq!['"'] + escaped(chars@.take(i + 1)));
        } else {
            out.push(chars[i]);
            assert(out@ =~= seq!['"'] + escaped(chars@.take(i + 1)));
        }
        i += 1;
    }
    assert(chars@.take(chars.len() as int) =~= chars@);
    out.push('"');
    assert(out@ =~= quoted(s@));
    out
}

/// Ways to write a page.
pub trait PageWriter {
    /// What is written for a page.
    spec fn written(page: PageModel) -> Seq<char>;

    /// Writes a page.
    fn write(page: Page) -> (s: String)
        ensures
            s@ == Self::written(page@),
    ;
}

/// Writes the categories of a page, separated by tabs.
pub struct CategoryWriterTSV;

/// Writes the categories of a page as JSON.
pub struct CategoryWriterJSONL;

/// Writes the links of a page, separated by tabs.
pub struct AnchorWriterTSV;

/// Writes the links of a page as JSON.
pub struct AnchorWriterJSONL;

/// The categories of a page, each between quotation marks.
fn quoted_categories(page: &Page) -> (r: Vec<Vec<char>>)
    ensures
        views(r@) == all_quoted(page@.categories),
{
    let mut out: Vec<Vec<char>> = Vec::new();
    let mut i: usize = 0;
    while i < page.categories.len()
        invariant
            i <= page.categories.len(),
            out@.len() == i,
            forall|j: int| 0 <= j < i ==> (#[trigger] out@[j])@ == quoted(page.categories@[j]@),
        decreases page.categories.len() - i,
    {
        out.push(quote(page.categories[i].0.as_str()));
        i += 1;
    }
    assert(views(out@) =~= all_quoted(page@.categories));
    out
}

/// The pages that the links of a page lead to, each between quotation
/// marks.
fn quoted_targets(page: &Page) -> (r: Vec<Vec<char>>)
    ensures
        views(r@) == all_quoted(targets(page@.anchors)),
{
    let mut out: Vec<Vec<char>> = Vec::new();
    let mut i: usize = 0;
    while i < page.anchors.len()
        invariant
            i <= page.anchors.len(),
            out@.len() == i,
            forall|j: int| 0 <= j < i ==> (#[trigger] out@[j])@ == quoted(page.anchors@[j]@.target()),
        decreases page.anchors.len() - i,
    {
        out.push(quote(page.anchors[i].target().as_str()));
        i += 1;
    }
    assert(views(out@) =~= all_quoted(targets(page@.anchors)));
    out
}

/// The line of a page with a list under the key `key`, as JSON.
fn jsonl_of(page: &Page, key: &str, items: &Vec<Vec<char>>, Ghost(plain): Ghost<Seq<Seq<char>>>) -> (s:
    String)
    requires
        views(items@) == all_quoted(plain),
    ensures
        s@ == jsonl(page@, key@, plain),
{
    let mut out = chars_of("{ \"title\": \"");
    append(&mut out, &chars_of(page.title.as_str()));
    append(&mut out, &chars_of("\", \"id\": "));
    append(&mut out, &chars_of(page.id.as_str()));
    append(&mut out, &chars_of(", \""));
    append(&mut out, &chars_of(key));
    append(&mut out, &chars_of("\": ["));
    let sep: Vec<char> = vec![',', ' '];
    assert(sep@ =~= seq![',', ' ']);
    append(&mut out, &joined(items, &sep));
    append(&mut out, &chars_of("] },\n"));
    string_of(&out)
}

impl PageWriter for CategoryWriterTSV {
    open spec fn written(page: PageModel) -> Seq<char> {
        category_tsv(page)
    }

    fn write(page: Page) -> (s: String) {
        let mut out = chars_of(page.id.as_str());
        out.push('\t');
        append(&mut out, &chars_of(page.title.as_str()));
        out.push('\t');
        let sep: Vec<char> = vec![','];
        assert(sep@ =~= seq![',']);
        append(&mut out, &joined(&quoted_categories(&page), &sep));
        out.push('\n');
        assert(out@ =~= category_tsv(page@));
        string_of(&out)
    }
}

impl PageWriter for CategoryWriterJSONL {
    open spec fn written(page: PageModel) -> Seq<char> {
        jsonl(page, "categories"@, page.categories)
    }

    fn write(page: Page) -> (s: String) {
        let items = quoted_categories(&page);
        jsonl_of(&page, "categories", &items, Ghost(page@.categories))
    }
}

impl PageWriter for AnchorWriterTSV {
    open spec fn written(page: PageModel) -> Seq<char> {
        anchor_lines(page, page.anchors.len() as int)
    }

    fn write(page: Page) -> (s: String) {
        let mut out: Vec<char> = Vec::new();
        let id = chars_of(page.id.as_str());
        let title = chars_of(page.title.as_str());
        let mut i: usize = 0;
        while i < page.anchors.len()
            invariant
                i <= page.anchors.len(),
                id@ == page.id@,
                title@ == page.title@,
                out@ == anchor_lines(page@, i as int),
            decreases page.anchors.len() - i,
        {
            let ghost before = out@;
            let a = &page.anchors[i];
            assert(page@.anchors[i as int] == a@);
            append(&mut out, &id);
            out.push('\t');
            append(&mut out, &title);
            out.push('\t');
            append(&mut out, &chars_of(a.shown().as_str()));
            out.push('\t');
            append(&mut out, &chars_of(a.target().as_str()));
            out.push('\n');
            assert(out@ =~= before + anchor_line(page@, a@));
            i += 1;
        }
        string_of(&out)
    }
}

impl PageWriter for AnchorWriterJSONL {
    open spec fn written(page: PageModel) -> Seq<char> {
        jsonl(page, "anchors"@, targets(page.anchors))
    }

    fn write(page: Page) -> (s: String) {
        let items = quoted_targets(&page);
        jsonl_of(&page, "anchors", &items, Ghost(targets(page@.anchors)))
    }
}

} // verus!
