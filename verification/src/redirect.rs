//! Redirects: pages that only lead to another page.

use crate::text::{same_text, starts_with, text_starts_with};
use crate::xml::{
    attribute_in, content_at, event_models, events_after, events_of, first_value,
    lemma_content_in_reach, read_content, xml_attributes, xml_events, XmlEvent, XmlEventModel,
};
use vstd::prelude::*;
use vstd::string::*;

verus! {

/// A redirect from one title to another.
#[derive(Clone, Debug, Default, PartialEq)]
pub struct Redirect {
    pub from: String,
    pub to: String,
}

/// A redirect as a value: the title it leads from and the title it leads to.
pub struct RedirectModel {
    pub from: Seq<char>,
    pub to: Seq<char>,
}

impl View for Redirect {
    type V = RedirectModel;

    open spec fn view(&self) -> RedirectModel {
        RedirectModel { from: self.from@, to: self.to@ }
    }
}

/// A title that may stand as another name of a page: no page of the wiki
/// itself, no template, no portal and no list.
pub open spec fn valid_alias(title: Seq<char>) -> bool {
    &&& !starts_with(title, "Wikipedia:"@)
    &&& !starts_with(title, "Template:"@)
    &&& !starts_with(title, "Portal:"@)
    &&& !starts_with(title, "List of "@)
}

/// Whether `title` may stand as another name of a page.
pub fn is_valid_alias(title: &str) -> (b: bool)
    ensures
        b == valid_alias(title@),
{
    if text_starts_with(title, "Wikipedia:") || text_starts_with(title, "Template:")
        || text_starts_with(title, "Portal:") || text_starts_with(title, "List of ") {
        return false;
    }
    true
}

/// What the event `ev` means while the title read last is `title`.
pub enum RedirectStep {
    /// Read the next event.
    Next,
    /// Read the content of the `title` element and keep it.
    ReadTitle,
    /// A redirect from the title to this page.
    Found(Seq<char>),
    /// A redirect from a title that is no valid alias.
    Invalid,
    /// Stop: the text has ended or is malformed.
    Stop,
}

/// What the event `ev` means while the title read last is `title`: an empty
/// `redirect` element gives a redirect to the value of its first `title`
/// attribute, as it is written, if the title is a valid alias.
pub open spec fn redirect_step(ev: XmlEventModel, title: Seq<char>) -> RedirectStep {
    match ev {
        XmlEventModel::Start(name) => if name == "title"@ {
            RedirectStep::ReadTitle
        } else {
            RedirectStep::Next
        },
        XmlEventModel::Empty(name, attributes) => if name == "redirect"@ {
            if valid_alias(title) {
                match first_value(xml_attributes(attributes), "title"@) {
                    Some(to) => RedirectStep::Found(to),
                    None => RedirectStep::Next,
                }
            } else {
                RedirectStep::Invalid
            }
        } else {
            RedirectStep::Next
        },
        XmlEventModel::End(_) => RedirectStep::Next,
        XmlEventModel::Text(_) => RedirectStep::Next,
        XmlEventModel::Ref(_) => RedirectStep::Next,
        XmlEventModel::Eof => RedirectStep::Stop,
        XmlEventModel::Other => RedirectStep::Next,
        XmlEventModel::Malformed => RedirectStep::Stop,
    }
}

/// What the machine finds next, and where it then stands: the position in
/// the events, the title it holds, and how many redirects from titles that
/// are no valid alias it has counted.
pub struct RedirectNext {
    pub found: Option<RedirectModel>,
    pub pos: int,
    pub title: Seq<char>,
    pub invalid: usize,
}

/// The count after one more redirect from a title that is no valid alias.
pub open spec fn one_more(invalid: usize) -> usize {
    if invalid < usize::MAX {
        (invalid + 1) as usize
    } else {
        invalid
    }
}

/// What the machine finds next from the position `pos`, holding `title` and
/// the count `invalid`. It walks the events: the content of a `title`
/// element is kept; an empty `redirect` element with a `title` attribute is
/// a redirect from the title to the attribute's value, which is handed out
/// where the title is a valid alias and counted where it is not. A title
/// that cannot be read, the end of the text and a malformed text end the
/// redirects: the machine then stands behind the last event. Behind the
/// last event nothing is found and nothing changes.
pub open spec fn next_from(
    events: Seq<XmlEventModel>,
    pos: int,
    title: Seq<char>,
    invalid: usize,
) -> RedirectNext
    decreases events_after(events, pos),
{
    if pos < 0 || pos >= events.len() {
        RedirectNext { found: None, pos, title, invalid }
    } else {
        let end = RedirectNext { found: None, pos: events.len() as int, title, invalid };
        match redirect_step(events[pos], title) {
            RedirectStep::Next => next_from(events, pos + 1, title, invalid),
            RedirectStep::ReadTitle => match content_at(events, pos + 1, "title"@) {
                Some((text, n)) => next_from(events, pos + 1 + n, text, invalid),
                None => end,
            },
            RedirectStep::Found(to) => RedirectNext {
                found: Some(RedirectModel { from: title, to }),
                pos: pos + 1,
                title,
                invalid,
            },
            RedirectStep::Invalid => next_from(events, pos + 1, title, one_more(invalid)),
            RedirectStep::Stop => end,
        }
    }
}

/// The redirects that the machine finds from the position `pos` on, one
/// after the other, holding `title` at first.
pub open spec fn redirects_from(
    events: Seq<XmlEventModel>,
    pos: int,
    title: Seq<char>,
    invalid: usize,
) -> Seq<RedirectModel>
    decreases events_after(events, pos),
{
    let step = next_from(events, pos, title, invalid);
    match step.found {
        Some(red) if step.pos > pos => seq![red] + redirects_from(
            events,
            step.pos,
            step.title,
            step.invalid,
        ),
        _ => Seq::empty(),
    }
}

/// The count that the machine has when it has found every redirect from
/// the position `pos` on.
pub open spec fn invalid_from(
    events: Seq<XmlEventModel>,
    pos: int,
    title: Seq<char>,
    invalid: usize,
) -> usize
    decreases events_after(events, pos),
{
    let step = next_from(events, pos, title, invalid);
    match step.found {
        Some(_) if step.pos > pos => invalid_from(events, step.pos, step.title, step.invalid),
        _ => step.invalid,
    }
}

/// The redirects of a list of events from valid aliases.
pub open spec fn redirects_of(events: Seq<XmlEventModel>) -> Seq<RedirectModel> {
    redirects_from(events, 0, Seq::empty(), 0)
}

/// How many redirects of a list of events come from titles that are no
/// valid alias.
pub open spec fn invalid_of(events: Seq<XmlEventModel>) -> usize {
    invalid_from(events, 0, Seq::empty(), 0)
}

/// The machine never moves back, has moved on when it finds a redirect, and
/// finds redirects from valid aliases only, each from the title it then
/// holds.
pub proof fn lemma_next_moves_on(
    events: Seq<XmlEventModel>,
    pos: int,
    title: Seq<char>,
    invalid: usize,
)
    requires
        0 <= pos,
    ensures
        next_from(events, pos, title, invalid).pos >= pos,
        next_from(events, pos, title, invalid).invalid >= invalid,
        next_from(events, pos, title, invalid).found matches Some(red) ==> next_from(
            events,
            pos,
            title,
            invalid,
        ).pos > pos && valid_alias(red.from) && red.from == next_from(
            events,
            pos,
            title,
            invalid,
        ).title,
    decreases events_after(events, pos),
{
    if pos < events.len() {
        lemma_content_in_reach(events, pos + 1, "title"@);
        match redirect_step(events[pos], title) {
            RedirectStep::Next => {
                lemma_next_moves_on(events, pos + 1, title, invalid);
            },
            RedirectStep::ReadTitle => match content_at(events, pos + 1, "title"@) {
                Some((text, n)) => {
                    lemma_next_moves_on(events, pos + 1 + n, text, invalid);
                },
                None => {},
            },
            RedirectStep::Invalid => {
                lemma_next_moves_on(events, pos + 1, title, one_more(invalid));
            },
            _ => {},
        }
    }
}

/// The redirect that was handed out, as a value.
pub open spec fn handed_redirect(r: Option<Redirect>) -> Option<RedirectModel> {
    match r {
        Some(red) => Some(red@),
        None => None,
    }
}

/// The redirects as values.
pub open spec fn redirect_models(reds: Seq<Redirect>) -> Seq<RedirectModel> {
    reds.map_values(|red: Redirect| red@)
}

/// What to do after an event.
#[derive(Clone, Debug, PartialEq)]
pub enum RedirectAction {
    Next,
    ReadTitle,
    Found(Redirect),
    Invalid,
    Stop,
}

/// What the action `a` stands for, for a machine that holds `title`.
pub open spec fn action_model(a: RedirectAction, title: Seq<char>) -> Option<RedirectStep> {
    match a {
        RedirectAction::Next => Some(RedirectStep::Next),
        RedirectAction::ReadTitle => Some(RedirectStep::ReadTitle),
        RedirectAction::Found(r) => if r.from@ == title {
            Some(RedirectStep::Found(r.to@))
        } else {
            None
        },
        RedirectAction::Invalid => Some(RedirectStep::Invalid),
        RedirectAction::Stop => Some(RedirectStep::Stop),
    }
}

/// What to do after the event `ev` while the title read last is `title`.
pub fn redirect_action(ev: &XmlEvent, title: &str) -> (a: RedirectAction)
    ensures
        action_model(a, title@) == Some(redirect_step(ev@, title@)),
{
    match ev {
        XmlEvent::Start(name) => {
            if same_text(name.as_str(), "title") {
                RedirectAction::ReadTitle
            } else {
                RedirectAction::Next
            }
        },
        XmlEvent::Empty(name, attributes) => {
            if same_text(name.as_str(), "redirect") {
                if is_valid_alias(title) {
                    match attribute_in(attributes.as_str(), "title") {
                        Some(to) => RedirectAction::Found(
                            Redirect { from: String::from_str(title), to },
                        ),
                        None => RedirectAction::Next,
                    }
                } else {
                    RedirectAction::Invalid
                }
            } else {
                RedirectAction::Next
            }
        },
        XmlEvent::End(_) => RedirectAction::Next,
        XmlEvent::Text(_) => RedirectAction::Next,
        XmlEvent::Ref(_) => RedirectAction::Next,
        XmlEvent::Eof => RedirectAction::Stop,
        XmlEvent::Other => RedirectAction::Next,
        XmlEvent::Malformed => RedirectAction::Stop,
    }
}

impl Redirect {
    /// The line of the redirect in a file of tab-separated pairs.
    pub fn to_line(&self) -> (s: String)
        ensures
            s@ == self.from@ + seq!['\t'] + self.to@ + seq!['\n'],
    {
        proof {
            reveal_strlit("\t");
            reveal_strlit("\n");
            assert("\t"@ =~= seq!['\t']);
            assert("\n"@ =~= seq!['\n']);
        }
        self.from.clone().concat("\t").concat(self.to.as_str()).concat("\n")
    }
}

/// Walks the events of an XML text and hands out its redirects.
pub struct RedirectIterator {
    /// The events of the text.
    pub events: Vec<XmlEvent>,
    /// How many of the events were walked.
    pub pos: usize,
    /// The title read last.
    pub title: String,
    /// How many redirects from a title that is no valid alias were passed.
    pub invalid: usize,
}

impl RedirectIterator {
    /// What the iterator finds next, and where it then stands.
    pub open spec fn step(&self) -> RedirectNext {
        next_from(event_models(self.events@), self.pos as int, self.title@, self.invalid)
    }

    /// The iterator stands where `step` says.
    pub open spec fn stands_at(&self, step: RedirectNext) -> bool {
        self.pos == step.pos && self.title@ == step.title && self.invalid == step.invalid
    }

    /// The redirects that the iterator has yet to hand out.
    pub open spec fn redirects_left(&self) -> Seq<RedirectModel> {
        redirects_from(event_models(self.events@), self.pos as int, self.title@, self.invalid)
    }

    /// The count that the iterator has when it has handed out every
    /// redirect.
    pub open spec fn invalid_at_end(&self) -> usize {
        invalid_from(event_models(self.events@), self.pos as int, self.title@, self.invalid)
    }

    /// An iterator at the start of the events of `reader`, with no title.
    pub fn new(reader: &str) -> (it: Self)
        ensures
            event_models(it.events@) == xml_events(reader@),
            it.pos == 0,
            it.title@ == Seq::<char>::empty(),
            it.invalid == 0,
            it.redirects_left() == redirects_of(xml_events(reader@)),
            it.invalid_at_end() == invalid_of(xml_events(reader@)),
    {
        let it = RedirectIterator {
            events: events_of(reader),
            pos: 0,
            title: String::new(),
            invalid: 0,
        };
        assert(it.title@ =~= Seq::<char>::empty());
        it
    }

    /// An iterator at the start of the given events, with no title.
    pub fn from_events(events: Vec<XmlEvent>) -> (it: Self)
        ensures
            it.events == events,
            it.pos == 0,
            it.title@ == Seq::<char>::empty(),
            it.invalid == 0,
            it.redirects_left() == redirects_of(event_models(events@)),
            it.invalid_at_end() == invalid_of(event_models(events@)),
    {
        let it = RedirectIterator { events, pos: 0, title: String::new(), invalid: 0 };
        assert(it.title@ =~= Seq::<char>::empty());
        it
    }

    /// The next redirect from a valid alias; `None` when the text has ended
    /// or is malformed.
    pub fn next(&mut self) -> (r: Option<Redirect>)
        ensures
            final(self).events == old(self).events,
            handed_redirect(r) == old(self).step().found,
            final(self).stands_at(old(self).step()),
            final(self).pos >= old(self).pos,
            final(self).pos <= old(self).events@.len() || final(self).pos == old(self).pos,
            final(self).invalid >= old(self).invalid,
            r matches Some(red) ==> valid_alias(red.from@) && red.from@ == final(self).title@
                && final(self).pos > old(self).pos,
            old(self).redirects_left() == (match r {
                Some(red) => seq![red@] + final(self).redirects_left(),
                None => Seq::empty(),
            }),
            old(self).invalid_at_end() == (match r {
                Some(_) => final(self).invalid_at_end(),
                None => final(self).invalid,
            }),
    {
        proof {
            lemma_next_moves_on(
                event_models(self.events@),
                self.pos as int,
                self.title@,
                self.invalid,
            );
        }
        while self.pos < self.events.len()
            invariant
                self.events == old(self).events,
                self.pos >= old(self).pos,
                self.invalid >= old(self).invalid,
                self.pos <= self.events@.len() || self.pos == old(self).pos,
                self.step() == old(self).step(),
            decreases self.events@.len() - self.pos,
        {
            let ghost all = event_models(self.events@);
            assert(all[self.pos as int] == self.events@[self.pos as int]@);
            let action = redirect_action(&self.events[self.pos], self.title.as_str());
            self.pos = self.pos + 1;
            match action {
                RedirectAction::Next => {},
                RedirectAction::ReadTitle => {
                    match read_content(&self.events, self.pos, "title") {
                        Some((text, next)) => {
                            self.title = text;
                            self.pos = next;
                        },
                        None => {
                            self.pos = self.events.len();
                            return None;
                        },
                    }
                },
                RedirectAction::Found(red) => {
                    return Some(red);
                },
                RedirectAction::Invalid => {
                    if self.invalid < usize::MAX {
                        self.invalid = self.invalid + 1;
                    }
                },
                RedirectAction::Stop => {
                    self.pos = self.events.len();
                    return None;
                },
            }
        }
        None
    }
}

/// The redirects of an XML text from valid aliases, in order, and the number
/// of those from other titles.
pub fn extract_xml(reader: &str) -> (r: (Vec<Redirect>, usize))
    ensures
        redirect_models(r.0@) == redirects_of(xml_events(reader@)),
        r.1 == invalid_of(xml_events(reader@)),
        forall|i: int| 0 <= i < r.0@.len() ==> valid_alias((#[trigger] r.0@[i]).from@),
{
    let mut it = RedirectIterator::new(reader);
    let mut out: Vec<Redirect> = Vec::new();
    let ghost all = redirects_of(xml_events(reader@));
    assert(redirect_models(out@) + it.redirects_left() =~= all);
    loop
        invariant
            all == redirects_of(xml_events(reader@)),
            redirect_models(out@) + it.redirects_left() == all,
            it.invalid_at_end() == invalid_of(xml_events(reader@)),
            forall|i: int| 0 <= i < out@.len() ==> valid_alias((#[trigger] out@[i]).from@),
        decreases it.events@.len() - it.pos,
    {
        let ghost left = it.redirects_left();
        let ghost before = out@;
        match it.next() {
            Some(red) => {
                out.push(red);
                assert(redirect_models(out@) =~= redirect_models(before).push(red@));
                assert(redirect_models(out@) + it.redirects_left() =~= redirect_models(before)
                    + left);
            },
            None => {
                assert(redirect_models(out@) + left =~= redirect_models(out@));
                let r: (Vec<Redirect>, usize) = (out, it.invalid);
                assert(redirect_models(r.0@) == all);
                return r;
            },
        }
    }
}

} // verus!
