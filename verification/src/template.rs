//! Template pages of an XML text.

use crate::text::{same_text, starts_with, text_starts_with};
use crate::xml::{
    content_at, event_models, events_after, events_of, read_content, xml_events, XmlEvent,
    XmlEventModel,
};
use vstd::prelude::*;
use vstd::string::*;

verus! {

/// A template page: its title and its wikitext.
#[derive(Clone, Debug, Default)]
pub struct Template {
    pub title: String,
    pub page: String,
}

/// A template as a value: its title and its wikitext.
pub struct TemplateModel {
    pub title: Seq<char>,
    pub page: Seq<char>,
}

impl View for Template {
    type V = TemplateModel;

    open spec fn view(&self) -> TemplateModel {
        TemplateModel { title: self.title@, page: self.page@ }
    }
}

impl Template {
    /// A template with the given title and text.
    pub fn from_unclean(title: String, page: String) -> (t: Template)
        ensures
            t.title@ == title@,
            t.page@ == page@,
    {
        let (title, page) = Template::clean(title, page);
        Template { title, page }
    }

    /// The title and the text as they are kept: unchanged.
    pub fn clean(title: String, page: String) -> (r: (String, String))
        ensures
            r.0@ == title@,
            r.1@ == page@,
    {
        (title, page)
    }

    /// The title of the template.
    pub fn title(&self) -> (s: &str)
        ensures
            s@ == self.title@,
    {
        self.title.as_str()
    }

    /// The wikitext of the template.
    pub fn page(&self) -> (s: &str)
        ensures
            s@ == self.page@,
    {
        self.page.as_str()
    }

    /// The template as a `page` element of name space 10.
    pub fn to_string(&self) -> (s: String)
        ensures
            s@ == rendered(self.title@, self.page@),
    {
        let s = String::from_str("<page>\n   <title>");
        let s = s.concat(self.title.as_str());
        let s = s.concat("</title>\n   <ns>10</ns>\n   <text>");
        let s = s.concat(self.page.as_str());
        s.concat("\n   </text>\n</page>")
    }
}

/// A template written as a `page` element of name space 10.
pub open spec fn rendered(title: Seq<char>, page: Seq<char>) -> Seq<char> {
    "<page>\n   <title>"@ + title + "</title>\n   <ns>10</ns>\n   <text>"@ + page
        + "\n   </text>\n</page>"@
}

/// What the machine does after an event.
#[derive(Clone, Copy, Debug, PartialEq, Eq)]
pub enum TemplateAction {
    /// Read the next event.
    Next,
    /// Read the content of the `title` element and keep it.
    ReadTitle,
    /// Read the content of the `text` element and keep it.
    ReadText,
    /// Hand out the template that was read, then read the next event.
    Emit,
    /// Stop: the text has ended or is malformed.
    Stop,
}

/// Where the machine stands: whether it is inside a page, whether that page
/// is a template, and the title and the text it has read.
#[derive(Clone, Debug, Default)]
pub struct TemplateState {
    pub in_page: bool,
    pub in_template: bool,
    pub title: String,
    pub page: String,
}

/// What a `TemplateState` stands for.
pub struct TemplateStateModel {
    pub in_page: bool,
    pub in_template: bool,
    pub title: Seq<char>,
    pub page: Seq<char>,
}

impl View for TemplateState {
    type V = TemplateStateModel;

    open spec fn view(&self) -> TemplateStateModel {
        TemplateStateModel {
            in_page: self.in_page,
            in_template: self.in_template,
            title: self.title@,
            page: self.page@,
        }
    }
}

/// What the machine does after the event `ev` in the state `s`.
pub open spec fn template_action(s: TemplateStateModel, ev: XmlEventModel) -> TemplateAction {
    match ev {
        XmlEventModel::Start(name) => if name == "title"@ && s.in_page {
            TemplateAction::ReadTitle
        } else if name == "text"@ && s.in_template {
            TemplateAction::ReadText
        } else {
            TemplateAction::Next
        },
        XmlEventModel::End(name) => if name == "page"@ && s.in_template {
            TemplateAction::Emit
        } else {
            TemplateAction::Next
        },
        XmlEventModel::Empty(_, _) => TemplateAction::Next,
        XmlEventModel::Text(_) => TemplateAction::Next,
        XmlEventModel::Ref(_) => TemplateAction::Next,
        XmlEventModel::Eof => TemplateAction::Stop,
        XmlEventModel::Other => TemplateAction::Next,
        XmlEventModel::Malformed => TemplateAction::Stop,
    }
}

/// The state after the event `ev` in the state `s`: a `page` element opens or
/// closes the page, and after a page that was handed out nothing is kept.
pub open spec fn template_after(s: TemplateStateModel, ev: XmlEventModel) -> TemplateStateModel {
    match ev {
        XmlEventModel::Start(name) => if name == "page"@ {
            TemplateStateModel { in_page: true, ..s }
        } else {
            s
        },
        XmlEventModel::End(name) => if name == "page"@ {
            if s.in_template {
                TemplateStateModel {
                    in_page: false,
                    in_template: false,
                    title: Seq::empty(),
                    page: Seq::empty(),
                }
            } else {
                TemplateStateModel { in_page: false, ..s }
            }
        } else {
            s
        },
        _ => s,
    }
}

impl TemplateState {
    /// The state before anything is read.
    pub fn new() -> (s: TemplateState)
        ensures
            s@ == (TemplateStateModel {
                in_page: false,
                in_template: false,
                title: Seq::empty(),
                page: Seq::empty(),
            }),
    {
        TemplateState { in_page: false, in_template: false, title: String::new(), page: String::new() }
    }

    /// Takes the event `ev`: says what to do, moves to the next state, and
    /// hands out the template that a closing `page` completes.
    pub fn on_event(&mut self, ev: &XmlEvent) -> (r: (TemplateAction, Option<Template>))
        ensures
            r.0 == template_action(old(self)@, ev@),
            final(self)@ == template_after(old(self)@, ev@),
            r.0 == TemplateAction::Emit <==> r.1 is Some,
            r.1 matches Some(t) ==> t.title@ == old(self).title@ && t.page@ == old(self).page@,
    {
        match ev {
            XmlEvent::Start(name) => {
                if same_text(name.as_str(), "page") {
                    proof {
                        reveal_strlit("page");
                        reveal_strlit("title");
                        reveal_strlit("text");
                        assert("page"@.len() == 4 && "title"@.len() == 5);
                        assert("page"@[0] == 'p' && "text"@[0] == 't');
                    }
                    self.in_page = true;
                    (TemplateAction::Next, None)
                } else if same_text(name.as_str(), "title") && self.in_page {
                    (TemplateAction::ReadTitle, None)
                } else if same_text(name.as_str(), "text") && self.in_template {
                    (TemplateAction::ReadText, None)
                } else {
                    (TemplateAction::Next, None)
                }
            },
            XmlEvent::End(name) => {
                if same_text(name.as_str(), "page") {
                    self.in_page = false;
                    if self.in_template {
                        let mut title = String::new();
                        let mut page = String::new();
                        core::mem::swap(&mut title, &mut self.title);
                        core::mem::swap(&mut page, &mut self.page);
                        self.in_template = false;
                        (TemplateAction::Emit, Some(Template::from_unclean(title, page)))
                    } else {
                        (TemplateAction::Next, None)
                    }
                } else {
                    (TemplateAction::Next, None)
                }
            },
            XmlEvent::Empty(_, _) => (TemplateAction::Next, None),
            XmlEvent::Text(_) => (TemplateAction::Next, None),
            XmlEvent::Ref(_) => (TemplateAction::Next, None),
            XmlEvent::Eof => (TemplateAction::Stop, None),
            XmlEvent::Other => (TemplateAction::Next, None),
            XmlEvent::Malformed => (TemplateAction::Stop, None),
        }
    }

    /// Keeps the title that was read; the page is a template exactly if the
    /// title begins with `Template:`.
    pub fn on_title(&mut self, title: String)
        ensures
            final(self)@ == (TemplateStateModel {
                title: title@,
                in_template: starts_with(title@, "Template:"@),
                ..old(self)@
            }),
    {
        self.in_template = text_starts_with(title.as_str(), "Template:");
        self.title = title;
    }

    /// Keeps the text that was read.
    pub fn on_text(&mut self, page: String)
        ensures
            final(self)@ == (TemplateStateModel { page: page@, ..old(self)@ }),
    {
        self.page = page;
    }
}

/// The state before anything is read.
pub open spec fn first_state() -> TemplateStateModel {
    TemplateStateModel {
        in_page: false,
        in_template: false,
        title: Seq::empty(),
        page: Seq::empty(),
    }
}

/// The templates that the machine hands out from the position `pos` on, in
/// the state `s`. It walks the events: the state moves on with each; the
/// content of a `title` element inside a page is kept, and the page is a
/// template exactly if its title begins with `Template:`; the content of a
/// `text` element of a template is kept; the closing `page` of a template
/// hands out the title and the text that were kept. A content that cannot
/// be read, the end of the text and a malformed text end the templates.
pub open spec fn templates_from(
    events: Seq<XmlEventModel>,
    pos: int,
    s: TemplateStateModel,
) -> Seq<TemplateModel>
    decreases events_after(events, pos),
{
    if pos < 0 || pos >= events.len() {
        Seq::empty()
    } else {
        let after = template_after(s, events[pos]);
        match template_action(s, events[pos]) {
            TemplateAction::Next => templates_from(events, pos + 1, after),
            TemplateAction::ReadTitle => match content_at(events, pos + 1, "title"@) {
                Some((title, n)) => templates_from(
                    events,
                    pos + 1 + n,
                    TemplateStateModel {
                        title,
                        in_template: starts_with(title, "Template:"@),
                        ..after
                    },
                ),
                None => Seq::empty(),
            },
            TemplateAction::ReadText => match content_at(events, pos + 1, "text"@) {
                Some((page, n)) => templates_from(
                    events,
                    pos + 1 + n,
                    TemplateStateModel { page, ..after },
                ),
                None => Seq::empty(),
            },
            TemplateAction::Emit => seq![TemplateModel { title: s.title, page: s.page }]
                + templates_from(events, pos + 1, after),
            TemplateAction::Stop => Seq::empty(),
        }
    }
}

/// The templates of a list of events.
pub open spec fn templates_of(events: Seq<XmlEventModel>) -> Seq<TemplateModel> {
    templates_from(events, 0, first_state())
}

/// The templates as values.
pub open spec fn template_models(found: Seq<Template>) -> Seq<TemplateModel> {
    found.map_values(|t: Template| t@)
}

/// The template pages of `stream`, in order. Reading ends where the text
/// ends or is malformed.
pub fn extract_templates(stream: &str) -> (r: Vec<Template>)
    ensures
        template_models(r@) == templates_of(xml_events(stream@)),
        forall|i: int| 0 <= i < r@.len() ==> starts_with((#[trigger] r@[i]).title@, "Template:"@),
{
    let events = events_of(stream);
    templates_in(&events)
}

/// The template pages of a list of events, in order: each has a title that
/// begins with `Template:`.
pub fn templates_in(events: &Vec<XmlEvent>) -> (r: Vec<Template>)
    ensures
        template_models(r@) == templates_of(event_models(events@)),
        forall|i: int| 0 <= i < r@.len() ==> starts_with((#[trigger] r@[i]).title@, "Template:"@),
{
    let ghost all = event_models(events@);
    let mut state = TemplateState::new();
    let mut out: Vec<Template> = Vec::new();
    let mut pos: usize = 0;
    assert(template_models(out@) + templates_from(all, 0, state@) =~= templates_of(all));
    while pos < events.len()
        invariant
            all == event_models(events@),
            state.in_template ==> starts_with(state.title@, "Template:"@),
            forall|i: int|
                0 <= i < out@.len() ==> starts_with((#[trigger] out@[i]).title@, "Template:"@),
            template_models(out@) + templates_from(all, pos as int, state@) == templates_of(all),
        decreases events.len() - pos,
    {
        assert(all[pos as int] == events@[pos as int]@);
        let ghost held = out@;
        let ghost before = state@;
        let (action, template) = state.on_event(&events[pos]);
        pos = pos + 1;
        match action {
            TemplateAction::Next => {},
            TemplateAction::ReadTitle => {
                match read_content(events, pos, "title") {
                    Some((title, next)) => {
                        state.on_title(title);
                        pos = next;
                    },
                    None => {
                        assert(template_models(out@) + Seq::<TemplateModel>::empty()
                            =~= template_models(out@));
                        return out;
                    },
                }
            },
            TemplateAction::ReadText => {
                match read_content(events, pos, "text") {
                    Some((page, next)) => {
                        state.on_text(page);
                        pos = next;
                    },
                    None => {
                        assert(template_models(out@) + Seq::<TemplateModel>::empty()
                            =~= template_models(out@));
                        return out;
                    },
                }
            },
            TemplateAction::Emit => {
                match template {
                    Some(t) => {
                        out.push(t);
                        assert(template_models(out@) =~= template_models(held).push(t@));
                        assert(template_models(out@) + templates_from(all, pos as int, state@)
                            =~= template_models(held) + (seq![t@] + templates_from(
                            all,
                            pos as int,
                            state@,
                        )));
                    },
                    None => {},
                }
            },
            TemplateAction::Stop => {
                assert(template_models(out@) + Seq::<TemplateModel>::empty() =~= template_models(
                    out@,
                ));
                return out;
            },
        }
    }
    assert(template_models(out@) + Seq::<TemplateModel>::empty() =~= template_models(out@));
    out
}

} // verus!
