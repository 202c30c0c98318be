//! The pages of an XML text, one after the other.
//!
//! One machine walks the events of the text and decides what to do on each.
//! Three iterators hand out what it finds: the page with its links and
//! categories, the text of the page alone, or the page's id, title and text.

use crate::multistream::{opened, stream_from, BZipMultiStream, DecodeError};
use crate::page::{page_categories, page_links, Page, PageModel};
use crate::text::{same_text, starts_with, text_of_bytes, text_starts_with, texts};
use crate::xml::{
    close_len, content_at, event_models, events_after, events_of, lemma_close_in_reach,
    lemma_content_in_reach, read_content, skip_to_close, xml_events, XmlEvent, XmlEventModel,
};
use vstd::prelude::*;

verus! {

/// What the machine does after an event.
#[derive(Clone, Copy, Debug, PartialEq, Eq)]
pub enum PageAction {
    /// Read the next event.
    Next,
    /// Read the content of the `id` element and keep it.
    ReadId,
    /// Read the content of the `title` element and keep it.
    ReadTitle,
    /// Skip the rest of the page: it is a redirect.
    SkipPage,
    /// Read the content of the `text` element and hand the page out.
    ReadText,
    /// Stop: the text has ended or is malformed.
    Stop,
}

/// A page as it stands in the text: its id, its title and its wikitext.
#[derive(Clone, Debug)]
pub struct RawPage {
    pub id: String,
    pub title: String,
    pub text: String,
}

/// The titles whose pages are passed over: files, templates, the wiki's own
/// pages, and the talk pages of users and files.
pub open spec fn is_filtered(title: Seq<char>) -> bool {
    ||| starts_with(title, "File:"@)
    ||| starts_with(title, "Template:"@)
    ||| starts_with(title, "Wikipedia:"@)
    ||| starts_with(title, "User talk:"@)
    ||| starts_with(title, "File talk:"@)
}

/// What the machine does after the event `ev` while the title it holds is
/// `title`.
pub open spec fn page_action(ev: XmlEventModel, title: Seq<char>) -> PageAction {
    match ev {
        XmlEventModel::Start(name) => if name == "text"@ {
            if is_filtered(title) {
                PageAction::Next
            } else {
                PageAction::ReadText
            }
        } else if name == "id"@ {
            PageAction::ReadId
        } else if name == "title"@ {
            PageAction::ReadTitle
        } else {
            PageAction::Next
        },
        XmlEventModel::Empty(name, _) => if name == "redirect"@ {
            PageAction::SkipPage
        } else {
            PageAction::Next
        },
        XmlEventModel::End(_) => PageAction::Next,
        XmlEventModel::Text(_) => PageAction::Next,
        XmlEventModel::Ref(_) => PageAction::Next,
        XmlEventModel::Eof => PageAction::Stop,
        XmlEventModel::Other => PageAction::Next,
        XmlEventModel::Malformed => PageAction::Stop,
    }
}

/// The page with the given title, id and wikitext.
pub open spec fn page_of(title: Seq<char>, id: Seq<char>, text: Seq<char>) -> PageModel {
    PageModel { title, id, anchors: page_links(text), categories: page_categories(text) }
}

/// What a `RawPage` stands for.
pub struct RawPageModel {
    pub id: Seq<char>,
    pub title: Seq<char>,
    pub text: Seq<char>,
}

impl View for RawPage {
    type V = RawPageModel;

    open spec fn view(&self) -> RawPageModel {
        RawPageModel { id: self.id@, title: self.title@, text: self.text@ }
    }
}

/// The page that was handed out, as a value.
pub open spec fn raw_model(r: Option<RawPage>) -> Option<RawPageModel> {
    match r {
        Some(p) => Some(p@),
        None => None,
    }
}

/// What the machine hands out next, and where it then stands: the position
/// in the events, and the title and the id it holds.
pub struct PageStep {
    pub page: Option<RawPageModel>,
    pub pos: int,
    pub title: Seq<char>,
    pub id: Seq<char>,
}

/// What the machine hands out next from the position `pos`, holding `title`
/// and `id`. It walks the events: the content of a `title` or an `id`
/// element is kept; a page with a `redirect` is passed over to its end; the
/// content of a `text` element, where the title is not one of those that
/// are passed over, is handed out with the title and the id. A content that
/// cannot be read, the end of the text and a malformed text end the pages:
/// the machine then stands behind the last event. Behind the last event
/// nothing is handed out and nothing changes.
pub open spec fn next_from(
    events: Seq<XmlEventModel>,
    pos: int,
    title: Seq<char>,
    id: Seq<char>,
) -> PageStep
    decreases events_after(events, pos),
{
    if pos < 0 || pos >= events.len() {
        PageStep { page: None, pos, title, id }
    } else {
        let end = PageStep { page: None, pos: events.len() as int, title, id };
        match page_action(events[pos], title) {
            PageAction::Next => next_from(events, pos + 1, title, id),
            PageAction::ReadId => match content_at(events, pos + 1, "id"@) {
                Some((text, n)) => next_from(events, pos + 1 + n, title, text),
                None => end,
            },
            PageAction::ReadTitle => match content_at(events, pos + 1, "title"@) {
                Some((text, n)) => next_from(events, pos + 1 + n, text, id),
                None => end,
            },
            PageAction::SkipPage => match close_len(events, pos + 1, "page"@, 0) {
                Some(n) => next_from(events, pos + 1 + n, title, id),
                None => end,
            },
            PageAction::ReadText => match content_at(events, pos + 1, "text"@) {
                Some((text, n)) => PageStep {
                    page: Some(RawPageModel { id, title, text }),
                    pos: pos + 1 + n,
                    title,
                    id,
                },
                None => end,
            },
            PageAction::Stop => end,
        }
    }
}

/// The pages that the machine hands out from the position `pos` on, one
/// after the other, holding `title` and `id` at first.
pub open spec fn pages_from(
    events: Seq<XmlEventModel>,
    pos: int,
    title: Seq<char>,
    id: Seq<char>,
) -> Seq<RawPageModel>
    decreases events_after(events, pos),
{
    let step = next_from(events, pos, title, id);
    match step.page {
        Some(page) if step.pos > pos => seq![page] + pages_from(
            events,
            step.pos,
            step.title,
            step.id,
        ),
        _ => Seq::empty(),
    }
}

/// The pages of a list of events: those that the machine hands out from the
/// first event on.
pub open spec fn pages_of(events: Seq<XmlEventModel>) -> Seq<RawPageModel> {
    pages_from(events, 0, Seq::empty(), Seq::empty())
}

/// The machine never moves back, never moves behind the events from inside
/// them, and has moved on when it hands out a page; the page it hands out
/// has the title and the id that it then holds, and its title is none of
/// those that are passed over.
pub proof fn lemma_next_moves_on(
    events: Seq<XmlEventModel>,
    pos: int,
    title: Seq<char>,
    id: Seq<char>,
)
    requires
        0 <= pos,
    ensures
        next_from(events, pos, title, id).pos >= pos,
        pos <= events.len() ==> next_from(events, pos, title, id).pos <= events.len(),
        next_from(events, pos, title, id).page is Some ==> next_from(events, pos, title, id).pos
            > pos,
        next_from(events, pos, title, id).page matches Some(page) ==> !is_filtered(page.title)
            && page.title == next_from(events, pos, title, id).title && page.id == next_from(
            events,
            pos,
            title,
            id,
        ).id,
    decreases events.len() - pos,
{
    if pos < events.len() {
        lemma_close_in_reach(events, pos + 1, "page"@, 0);
        lemma_content_in_reach(events, pos + 1, "id"@);
        lemma_content_in_reach(events, pos + 1, "title"@);
        lemma_content_in_reach(events, pos + 1, "text"@);
        match page_action(events[pos], title) {
            PageAction::Next => {
                lemma_next_moves_on(events, pos + 1, title, id);
            },
            PageAction::ReadId => match content_at(events, pos + 1, "id"@) {
                Some((text, n)) => {
                    lemma_next_moves_on(events, pos + 1 + n, title, text);
                },
                None => {},
            },
            PageAction::ReadTitle => match content_at(events, pos + 1, "title"@) {
                Some((text, n)) => {
                    lemma_next_moves_on(events, pos + 1 + n, text, id);
                },
                None => {},
            },
            PageAction::SkipPage => match close_len(events, pos + 1, "page"@, 0) {
                Some(n) => {
                    lemma_next_moves_on(events, pos + 1 + n, title, id);
                },
                None => {},
            },
            _ => {},
        }
    }
}

/// Whether pages with this title are passed over.
pub fn is_filtered_title(title: &str) -> (b: bool)
    ensures
        b == is_filtered(title@),
{
    text_starts_with(title, "File:") || text_starts_with(title, "Template:") || text_starts_with(
        title,
        "Wikipedia:",
    ) || text_starts_with(title, "User talk:") || text_starts_with(title, "File talk:")
}

/// What the machine does after the event `ev` while the title it holds is
/// `title`.
pub fn action_for(ev: &XmlEvent, title: &str) -> (a: PageAction)
    ensures
        a == page_action(ev@, title@),
{
    match ev {
        XmlEvent::Start(name) => {
            if same_text(name.as_str(), "text") {
                if is_filtered_title(title) {
                    PageAction::Next
                } else {
                    PageAction::ReadText
                }
            } else if same_text(name.as_str(), "id") {
                PageAction::ReadId
            } else if same_text(name.as_str(), "title") {
                PageAction::ReadTitle
            } else {
                PageAction::Next
            }
        },
        XmlEvent::Empty(name, _) => {
            if same_text(name.as_str(), "redirect") {
                PageAction::SkipPage
            } else {
                PageAction::Next
            }
        },
        XmlEvent::End(_) => PageAction::Next,
        XmlEvent::Text(_) => PageAction::Next,
        XmlEvent::Ref(_) => PageAction::Next,
        XmlEvent::Eof => PageAction::Stop,
        XmlEvent::Other => PageAction::Next,
        XmlEvent::Malformed => PageAction::Stop,
    }
}

/// Walks the events of an XML text and hands out its pages.
pub struct PageIterator {
    /// The events of the text.
    pub events: Vec<XmlEvent>,
    /// How many of the events were walked.
    pub pos: usize,
    /// The title read last.
    pub title: String,
    /// The id read last.
    pub id: String,
}

impl PageIterator {
    /// What the iterator hands out next, and where it then stands.
    pub open spec fn step(&self) -> PageStep {
        next_from(event_models(self.events@), self.pos as int, self.title@, self.id@)
    }

    /// The iterator stands where `step` says.
    pub open spec fn stands_at(&self, step: PageStep) -> bool {
        self.pos == step.pos && self.title@ == step.title && self.id@ == step.id
    }

    /// The pages that the iterator has yet to hand out.
    pub open spec fn pages_left(&self) -> Seq<RawPageModel> {
        pages_from(event_models(self.events@), self.pos as int, self.title@, self.id@)
    }

    /// An iterator at the start of the events of `xml_stream`, with no title
    /// and no id.
    pub fn new(xml_stream: &str) -> (it: Self)
        ensures
            event_models(it.events@) == xml_events(xml_stream@),
            it.pos == 0,
            it.title@ == Seq::<char>::empty(),
            it.id@ == Seq::<char>::empty(),
            it.pages_left() == pages_of(xml_events(xml_stream@)),
    {
        let it = PageIterator {
            events: events_of(xml_stream),
            pos: 0,
            title: String::new(),
            id: String::new(),
        };
        assert(it.title@ =~= Seq::<char>::empty() && it.id@ =~= Seq::<char>::empty());
        it
    }

    /// An iterator at the start of the given events, with no title and no
    /// id.
    pub fn from_events(events: Vec<XmlEvent>) -> (it: Self)
        ensures
            it.events == events,
            it.pos == 0,
            it.title@ == Seq::<char>::empty(),
            it.id@ == Seq::<char>::empty(),
            it.pages_left() == pages_of(event_models(events@)),
    {
        let it = PageIterator { events, pos: 0, title: String::new(), id: String::new() };
        assert(it.title@ =~= Seq::<char>::empty() && it.id@ =~= Seq::<char>::empty());
        it
    }

    /// Whether the page that is being read is passed over.
    pub fn is_filtered_title(&self) -> (b: bool)
        ensures
            b == is_filtered(self.title@),
    {
        is_filtered_title(self.title.as_str())
    }

    /// Reads the content of the `title` element in which the iterator
    /// stands and keeps it as the title, and moves behind the element. Where
    /// the content cannot be read, the iterator moves behind the last event
    /// and keeps its title. Says whether the content was read.
    pub fn extract_title(&mut self) -> (read: bool)
        requires
            old(self).pos <= old(self).events@.len(),
        ensures
            final(self).events == old(self).events,
            final(self).id == old(self).id,
            old(self).pos <= final(self).pos <= old(self).events@.len(),
            match content_at(event_models(old(self).events@), old(self).pos as int, "title"@) {
                Some((text, n)) => read && final(self).title@ == text && final(self).pos == old(
                    self,
                ).pos + n,
                None => !read && final(self).title == old(self).title && final(self).pos == old(
                    self,
                ).events@.len(),
            },
    {
        match read_content(&self.events, self.pos, "title") {
            Some((text, next)) => {
                self.title = text;
                self.pos = next;
                true
            },
            None => {
                self.pos = self.events.len();
                false
            },
        }
    }

    /// Reads the content of the `id` element in which the iterator stands
    /// and keeps it as the id, and moves behind the element. Where the
    /// content cannot be read, the iterator moves behind the last event and
    /// keeps its id. Says whether the content was read.
    pub fn extract_id(&mut self) -> (read: bool)
        requires
            old(self).pos <= old(self).events@.len(),
        ensures
            final(self).events == old(self).events,
            final(self).title == old(self).title,
            old(self).pos <= final(self).pos <= old(self).events@.len(),
            match content_at(event_models(old(self).events@), old(self).pos as int, "id"@) {
                Some((text, n)) => read && final(self).id@ == text && final(self).pos == old(
                    self,
                ).pos + n,
                None => !read && final(self).id == old(self).id && final(self).pos == old(
                    self,
                ).events@.len(),
            },
    {
        match read_content(&self.events, self.pos, "id") {
            Some((text, next)) => {
                self.id = text;
                self.pos = next;
                true
            },
            None => {
                self.pos = self.events.len();
                false
            },
        }
    }

    /// The next page that is not passed over, as it stands in the text;
    /// `None` when the text has ended or is malformed. A page is handed out
    /// whole or not at all.
    pub fn next_raw(&mut self) -> (r: Option<RawPage>)
        ensures
            final(self).events == old(self).events,
            raw_model(r) == old(self).step().page,
            final(self).stands_at(old(self).step()),
            final(self).pos >= old(self).pos,
            r is Some ==> final(self).pos > old(self).pos,
            r matches Some(p) ==> !is_filtered(p.title@) && p.title == final(self).title && p.id
                == final(self).id,
            old(self).pages_left() == (match r {
                Some(p) => seq![p@] + final(self).pages_left(),
                None => Seq::empty(),
            }),
    {
        proof {
            lemma_next_moves_on(
                event_models(self.events@),
                self.pos as int,
                self.title@,
                self.id@,
            );
        }
        while self.pos < self.events.len()
            invariant
                self.events == old(self).events,
                self.pos >= old(self).pos,
                self.step() == old(self).step(),
            decreases self.events@.len() - self.pos,
        {
            let ghost all = event_models(self.events@);
            assert(all[self.pos as int] == self.events@[self.pos as int]@);
            let action = action_for(&self.events[self.pos], self.title.as_str());
            self.pos = self.pos + 1;
            match action {
                PageAction::Next => {},
                PageAction::ReadId => {
                    if !self.extract_id() {
                        return None;
                    }
                },
                PageAction::ReadTitle => {
                    if !self.extract_title() {
                        return None;
                    }
                },
                PageAction::SkipPage => {
                    match skip_to_close(&self.events, self.pos, "page") {
                        Some(next) => {
                            self.pos = next;
                        },
                        None => {
                            self.pos = self.events.len();
                            return None;
                        },
                    }
                },
                PageAction::ReadText => {
                    match read_content(&self.events, self.pos, "text") {
                        Some((text, next)) => {
                            self.pos = next;
                            return Some(
                                RawPage { id: self.id.clone(), title: self.title.clone(), text },
                            );
                        },
                        None => {
                            self.pos = self.events.len();
                            return None;
                        },
                    }
                },
                PageAction::Stop => {
                    self.pos = self.events.len();
                    return None;
                },
            }
        }
        None
    }

    /// The next page that is not passed over, with the links and the
    /// categories of its text.
    pub fn next(&mut self) -> (r: Option<Page>)
        ensures
            final(self).events == old(self).events,
            final(self).stands_at(old(self).step()),
            final(self).pos >= old(self).pos,
            match old(self).step().page {
                Some(raw) => r matches Some(p) && p@ == page_of(raw.title, raw.id, raw.text),
                None => r is None,
            },
            old(self).pages_left() == (match old(self).step().page {
                Some(raw) => seq![raw] + final(self).pages_left(),
                None => Seq::empty(),
            }),
    {
        match self.next_raw() {
            Some(raw) => Some(Page::new(raw.title, raw.id, raw.text.as_str())),
            None => None,
        }
    }
}

/// Hands out the wikitext of each page that is not passed over.
pub struct RawPageIterator(pub PageIterator);

impl RawPageIterator {
    /// The wikitext of the next page that is not passed over.
    pub fn next(&mut self) -> (r: Option<String>)
        ensures
            final(self).0.events == old(self).0.events,
            final(self).0.stands_at(old(self).0.step()),
            final(self).0.pos >= old(self).0.pos,
            match old(self).0.step().page {
                Some(raw) => r matches Some(text) && text@ == raw.text,
                None => r is None,
            },
            old(self).0.pages_left() == (match old(self).0.step().page {
                Some(raw) => seq![raw] + final(self).0.pages_left(),
                None => Seq::empty(),
            }),
    {
        match self.0.next_raw() {
            Some(raw) => Some(raw.text),
            None => None,
        }
    }
}

/// Hands out the id, the title and the wikitext of each page that is not
/// passed over.
pub struct TantivyPageIterator(pub PageIterator);

impl TantivyPageIterator {
    /// The id, the title and the wikitext of the next page that is not
    /// passed over.
    pub fn next(&mut self) -> (r: Option<(String, String, String)>)
        ensures
            final(self).0.events == old(self).0.events,
            final(self).0.stands_at(old(self).0.step()),
            final(self).0.pos >= old(self).0.pos,
            match old(self).0.step().page {
                Some(raw) => r matches Some(triple) && triple.0@ == raw.id && triple.1@
                    == raw.title && triple.2@ == raw.text,
                None => r is None,
            },
            old(self).0.pages_left() == (match old(self).0.step().page {
                Some(raw) => seq![raw] + final(self).0.pages_left(),
                None => Seq::empty(),
            }),
    {
        match self.0.next_raw() {
            Some(raw) => Some((raw.id, raw.title, raw.text)),
            None => None,
        }
    }
}

/// The texts of the pages, in order.
pub open spec fn texts_read(pages: Seq<RawPageModel>) -> Seq<Seq<char>> {
    pages.map_values(|raw: RawPageModel| raw.text)
}

/// The wikitext of each page of an XML text that is not passed over, in
/// order.
pub fn page_texts(xml: &str) -> (r: Vec<String>)
    ensures
        texts(r@) == texts_read(pages_of(xml_events(xml@))),
{
    let mut pages = RawPageIterator(PageIterator::new(xml));
    let mut out: Vec<String> = Vec::new();
    let ghost all = pages_of(xml_events(xml@));
    assert(texts(out@) + texts_read(pages.0.pages_left()) =~= texts_read(all));
    loop
        invariant
            all == pages_of(xml_events(xml@)),
            texts(out@) + texts_read(pages.0.pages_left()) == texts_read(all),
        decreases pages.0.events@.len() - pages.0.pos,
    {
        let ghost left = pages.0.pages_left();
        let ghost before = out@;
        proof {
            lemma_next_moves_on(
                event_models(pages.0.events@),
                pages.0.pos as int,
                pages.0.title@,
                pages.0.id@,
            );
        }
        match pages.next() {
            Some(text) => {
                out.push(text);
                assert(texts(out@) =~= texts(before).push(text@));
                assert(texts_read(left) =~= seq![text@] + texts_read(pages.0.pages_left()));
                assert(texts(out@) + texts_read(pages.0.pages_left()) =~= texts(before)
                    + texts_read(left));
            },
            None => {
                assert(texts(out@) + texts_read(left) =~= texts(out@));
                return out;
            },
        }
    }
}

/// Why the pages of a stream could not be read.
#[derive(Clone, Copy, Debug, PartialEq, Eq)]
pub enum StreamError {
    /// The stream cannot be decoded.
    Decode(DecodeError),
    /// What the stream holds is no text.
    NotText,
}

/// What a list of pages stands for.
pub open spec fn page_models(pages: Seq<Page>) -> Seq<PageModel> {
    pages.map_values(|p: Page| p@)
}

/// The pages as they are read for their links and categories.
pub open spec fn pages_read(pages: Seq<RawPageModel>) -> Seq<PageModel> {
    pages.map_values(|raw: RawPageModel| page_of(raw.title, raw.id, raw.text))
}

/// The pages of the text that the bytes encode, each read for its links and
/// categories.
pub open spec fn pages_of_bytes(bytes: Seq<u8>) -> Seq<PageModel> {
    pages_read(pages_of(xml_events(vstd::utf8::decode_utf8(bytes))))
}

/// What the pages of a stream are where reading it gave `stream`: a
/// failure to decode it is handed on, bytes that are no text fail as such,
/// and else the pages are those of the text.
pub open spec fn pages_outcome(stream: Result<Seq<u8>, DecodeError>) -> Result<
    Seq<PageModel>,
    StreamError,
> {
    match stream {
        Err(e) => Err(StreamError::Decode(e)),
        Ok(bytes) => if vstd::utf8::valid_utf8(bytes) {
            Ok(pages_of_bytes(bytes))
        } else {
            Err(StreamError::NotText)
        },
    }
}

/// What a list of pages that was read stands for.
pub open spec fn pages_model(r: Result<Vec<Page>, StreamError>) -> Result<
    Seq<PageModel>,
    StreamError,
> {
    match r {
        Ok(pages) => Ok(page_models(pages@)),
        Err(e) => Err(e),
    }
}

impl Page {
    /// The pages of a stream that was decoded to `bytes`, in order, each
    /// read for its links and categories. Bytes that are no text fail, and
    /// nothing else does.
    pub fn pages_of_stream(bytes: Vec<u8>) -> (r: Result<Vec<Page>, StreamError>)
        ensures
            vstd::utf8::valid_utf8(bytes@) <==> r is Ok,
            !vstd::utf8::valid_utf8(bytes@) ==> r == Err::<Vec<Page>, StreamError>(
                StreamError::NotText,
            ),
            r matches Ok(pages) ==> page_models(pages@) == pages_of_bytes(bytes@),
    {
        let text = match text_of_bytes(bytes) {
            Some(text) => text,
            None => {
                return Err(StreamError::NotText);
            },
        };
        let mut pages = PageIterator::new(text.as_str());
        let mut out: Vec<Page> = Vec::new();
        let ghost all = pages_of(xml_events(text@));
        assert(page_models(out@) + pages_read(pages.pages_left()) =~= pages_read(all));
        loop
            invariant
                vstd::utf8::valid_utf8(bytes@),
                pages_read(all) == pages_of_bytes(bytes@),
                page_models(out@) + pages_read(pages.pages_left()) == pages_read(all),
            decreases pages.events@.len() - pages.pos,
        {
            let ghost left = pages.pages_left();
            let ghost before = out@;
            proof {
                lemma_next_moves_on(
                    event_models(pages.events@),
                    pages.pos as int,
                    pages.title@,
                    pages.id@,
                );
            }
            match pages.next() {
                Some(page) => {
                    out.push(page);
                    assert(page_models(out@) =~= page_models(before).push(page@));
                    assert(pages_read(left) =~= seq![page@] + pages_read(pages.pages_left()));
                    assert(page_models(out@) + pages_read(pages.pages_left()) =~= page_models(
                        before,
                    ) + pages_read(left));
                },
                None => {
                    assert(page_models(out@) + pages_read(left) =~= page_models(out@));
                    let r: Result<Vec<Page>, StreamError> = Ok(out);
                    assert(page_models(r->Ok_0@) == pages_of_bytes(bytes@));
                    return r;
                },
            }
        }
    }

    /// The pages of the stream that starts at `index` in the multistream
    /// `data`, or at its end where `index` lies behind it, in order: the
    /// stream is read from there, and the pages are those of the text it is
    /// decoded to. A stream that cannot be decoded fails as the decoder
    /// says, and one that is decoded to no text fails as such.
    pub fn index_to_pages(data: Vec<u8>, index: usize) -> (r: Result<Vec<Page>, StreamError>)
        ensures
            r == Err::<Vec<Page>, StreamError>(StreamError::Decode(DecodeError::Memory))
                || pages_model(r) == pages_outcome(stream_from(opened(data@, index), false).result),
    {
        let mut stream = BZipMultiStream::open(data, index);
        match stream.read_stream() {
            Ok(bytes) => Page::pages_of_stream(bytes),
            Err(e) => Err(StreamError::Decode(e)),
        }
    }
}

} // verus!
