//! The lines of the files that a dump is turned into.

use crate::page_iter::{lemma_next_moves_on, page_of, pages_of, PageIterator, RawPageModel};
use crate::redirect::{
    extract_xml, invalid_of, redirect_models, redirects_of, valid_alias, RedirectModel,
};
use crate::text::texts;
use crate::trie::{counts, trie_get, trie_insert, trie_new};
use crate::xml::{event_models, xml_events};
use crate::writer::{AnchorWriterTSV, PageWriter};
use vstd::prelude::*;

verus! {

/// `line` is the line of a redirect from a valid alias.
pub open spec fn is_redirect_line(line: Seq<char>) -> bool {
    exists|from: Seq<char>, to: Seq<char>|
        valid_alias(from) && line == #[trigger] redirect_line(from, to)
}

/// The line of a redirect.
pub open spec fn redirect_line(from: Seq<char>, to: Seq<char>) -> Seq<char> {
    from + seq!['\t'] + to + seq!['\n']
}

/// What the writer `P` writes for each of the pages, in order.
pub open spec fn written_all<P: PageWriter>(pages: Seq<RawPageModel>) -> Seq<Seq<char>> {
    pages.map_values(|raw: RawPageModel| P::written(page_of(raw.title, raw.id, raw.text)))
}

/// What the writer `P` writes for each page of an XML text that is not
/// passed over, in order. Reading ends where the text ends or is malformed.
pub fn extract_with_writer<P: PageWriter>(xml: &str) -> (r: Vec<String>)
    ensures
        texts(r@) == written_all::<P>(pages_of(xml_events(xml@))),
{
    let mut pages = PageIterator::new(xml);
    let mut out: Vec<String> = Vec::new();
    let ghost all = pages_of(xml_events(xml@));
    assert(texts(out@) + written_all::<P>(pages.pages_left()) =~= written_all::<P>(all));
    loop
        invariant
            all == pages_of(xml_events(xml@)),
            texts(out@) + written_all::<P>(pages.pages_left()) == written_all::<P>(all),
        decreases pages.events@.len() - pages.pos,
    {
        let ghost left = pages.pages_left();
        let ghost before = out@;
        proof {
            lemma_next_moves_on(
                event_models(pages.events@),
                pages.pos as int,
                pages.title@,
                pages.id@,
            );
        }
        match pages.next() {
            Some(page) => {
                let ghost model = page@;
                let text = P::write(page);
                out.push(text);
                assert(texts(out@) =~= texts(before).push(text@));
                assert(written_all::<P>(left) =~= seq![P::written(model)] + written_all::<P>(
                    pages.pages_left(),
                ));
                assert(texts(out@) + written_all::<P>(pages.pages_left()) =~= texts(before)
                    + written_all::<P>(left));
            },
            None => {
                assert(texts(out@) + written_all::<P>(left) =~= texts(out@));
                return out;
            },
        }
    }
}

/// The lines of the links of the pages of an XML text: for each page that
/// is not passed over, the lines of its links, separated by tabs.
pub fn write_anchors_tsv(xml: &str) -> (r: Vec<String>)
    ensures
        texts(r@) == written_all::<AnchorWriterTSV>(pages_of(xml_events(xml@))),
{
    extract_with_writer::<AnchorWriterTSV>(xml)
}

/// The lines of the redirects, in order.
pub open spec fn redirect_lines(reds: Seq<RedirectModel>) -> Seq<Seq<char>> {
    reds.map_values(|red: RedirectModel| redirect_line(red.from, red.to))
}

/// The lines of the redirects of an XML text: one line for each redirect
/// from a valid alias, in order.
pub fn dump_redirects_tsv(xml: &str) -> (r: Vec<String>)
    ensures
        texts(r@) == redirect_lines(redirects_of(xml_events(xml@))),
        forall|i: int| 0 <= i < r@.len() ==> is_redirect_line((#[trigger] r@[i])@),
{
    redirects_tsv(xml).0
}

/// The lines of the redirects of an XML text, one line for each redirect
/// from a valid alias, in order, and the number of redirects from other
/// titles.
pub fn redirects_tsv(xml: &str) -> (r: (Vec<String>, usize))
    ensures
        texts(r.0@) == redirect_lines(redirects_of(xml_events(xml@))),
        r.1 == invalid_of(xml_events(xml@)),
        forall|i: int| 0 <= i < r.0@.len() ==> is_redirect_line((#[trigger] r.0@[i])@),
{
    let found = extract_xml(xml);
    let mut out: Vec<String> = Vec::new();
    let mut i: usize = 0;
    while i < found.0.len()
        invariant
            i <= found.0@.len(),
            out@.len() == i,
            forall|j: int| 0 <= j < found.0@.len() ==> valid_alias((#[trigger] found.0@[j]).from@),
            forall|j: int|
                0 <= j < i ==> (#[trigger] out@[j])@ == redirect_line(
                    found.0@[j].from@,
                    found.0@[j].to@,
                ),
        decreases found.0@.len() - i,
    {
        let ghost before = out@;
        let line = found.0[i].to_line();
        out.push(line);
        assert forall|j: int| 0 <= j < i + 1 implies (#[trigger] out@[j])@ == redirect_line(
            found.0@[j].from@,
            found.0@[j].to@,
        ) by {
            if j < i {
                assert(out@[j] == before[j]);
            }
        }
        i = i + 1;
    }
    proof {
        assert(texts(out@) =~= redirect_lines(redirect_models(found.0@)));
        assert forall|j: int| 0 <= j < out@.len() implies is_redirect_line(
            (#[trigger] out@[j])@,
        ) by {
            assert(valid_alias(found.0@[j].from@));
            assert(out@[j]@ == redirect_line(found.0@[j].from@, found.0@[j].to@));
        }
    }
    (out, found.1)
}

/// Whether `line` is one of the first `n` of `lines`.
pub open spec fn seen_before(lines: Seq<Seq<char>>, n: int, line: Seq<char>) -> bool {
    exists|j: int| 0 <= j < n && #[trigger] lines[j] == line
}

/// The first `n` of `lines` without those that stand further in front
/// already: each text once, where it stands first.
pub open spec fn unique_upto(lines: Seq<Seq<char>>, n: int) -> Seq<Seq<char>>
    decreases n,
{
    if n <= 0 {
        Seq::empty()
    } else if seen_before(lines, n - 1, lines[n - 1]) {
        unique_upto(lines, n - 1)
    } else {
        unique_upto(lines, n - 1).push(lines[n - 1])
    }
}

/// The lines without those that stand further in front already.
pub open spec fn unique(lines: Seq<Seq<char>>) -> Seq<Seq<char>> {
    unique_upto(lines, lines.len() as int)
}

/// The lines of a file of pairs, each once: a line that stands further in
/// front already is left out.
pub fn unique_lines(lines: &Vec<String>) -> (r: Vec<String>)
    ensures
        texts(r@) == unique(texts(lines@)),
{
    let ghost all = texts(lines@);
    let mut seen = trie_new();
    let mut out: Vec<String> = Vec::new();
    let mut i: usize = 0;
    while i < lines.len()
        invariant
            i <= lines.len(),
            all == texts(lines@),
            texts(out@) == unique_upto(all, i as int),
            forall|k: Seq<char>| #[trigger] counts(seen).dom().contains(k) <==> seen_before(all, i as int, k),
        decreases lines.len() - i,
    {
        let ghost before = out@;
        let ghost held = counts(seen);
        assert(all[i as int] == lines@[i as int]@);
        let known = trie_get(&seen, lines[i].as_str()).is_some();
        if !known {
            trie_insert(&mut seen, lines[i].as_str(), 1);
            out.push(lines[i].clone());
            assert(texts(out@) =~= texts(before).push(all[i as int]));
        }
        proof {
            assert forall|k: Seq<char>| #[trigger] counts(seen).dom().contains(k) <==> seen_before(
                all,
                i + 1,
                k,
            ) by {
                if seen_before(all, i + 1, k) {
                    let j = choose|j: int| 0 <= j < i + 1 && #[trigger] all[j] == k;
                    if j < i {
                        assert(seen_before(all, i as int, k));
                    }
                }
                if held.dom().contains(k) {
                    assert(seen_before(all, i as int, k));
                    let j = choose|j: int| 0 <= j < i && #[trigger] all[j] == k;
                    assert(0 <= j < i + 1 && all[j] == k);
                }
                if k == all[i as int] {
                    assert(0 <= i < i + 1 && all[i as int] == k);
                }
            }
        }
        i += 1;
    }
    out
}

} // verus!
