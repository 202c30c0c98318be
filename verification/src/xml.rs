//! Events of an XML text, as the pull parser hands them out.

use crate::text::{append, chars_of, same_text, string_of};
use quick_xml::escape::unescape;
use quick_xml::events::attributes::Attributes;
use quick_xml::events::Event;
use vstd::prelude::*;

verus! {

/// The pull parser of `quick_xml`, which is carried and never looked into.
#[verifier::external_type_specification]
#[verifier::external_body]
#[verifier::reject_recursive_types(R)]
pub struct ExReader<R>(quick_xml::reader::Reader<R>);

/// One attribute of an element: its key and its value as it is written.
#[derive(Clone, Debug, PartialEq, Eq)]
pub struct XmlAttribute {
    pub key: String,
    pub value: String,
}

/// What the parser found next.
#[derive(Clone, Debug, PartialEq, Eq)]
pub enum XmlEvent {
    /// The start tag of an element, with the element's name.
    Start(String),
    /// An element without content, with its name and with its attributes
    /// as they are written behind the name.
    Empty(String, String),
    /// The end tag of an element, with the element's name.
    End(String),
    /// A piece of text between tags, as it is written.
    Text(String),
    /// A reference to a character or an entity between tags, with what
    /// stands between its `&` and its `;`.
    Ref(String),
    /// The end of the text.
    Eof,
    /// Anything else: a comment, a declaration, character data.
    Other,
    /// The text is malformed here.
    Malformed,
}

/// What an `XmlEvent` stands for.
pub enum XmlEventModel {
    Start(Seq<char>),
    Empty(Seq<char>, Seq<char>),
    End(Seq<char>),
    Text(Seq<char>),
    Ref(Seq<char>),
    Eof,
    Other,
    Malformed,
}

/// The key and the value that an attribute stands for.
pub open spec fn attribute_model(a: Option<XmlAttribute>) -> Option<(Seq<char>, Seq<char>)> {
    match a {
        Some(a) => Some((a.key@, a.value@)),
        None => None,
    }
}

impl View for XmlEvent {
    type V = XmlEventModel;

    open spec fn view(&self) -> XmlEventModel {
        match self {
            XmlEvent::Start(name) => XmlEventModel::Start(name@),
            XmlEvent::Empty(name, attributes) => XmlEventModel::Empty(name@, attributes@),
            XmlEvent::End(name) => XmlEventModel::End(name@),
            XmlEvent::Text(text) => XmlEventModel::Text(text@),
            XmlEvent::Ref(name) => XmlEventModel::Ref(name@),
            XmlEvent::Eof => XmlEventModel::Eof,
            XmlEvent::Other => XmlEventModel::Other,
            XmlEvent::Malformed => XmlEventModel::Malformed,
        }
    }
}

/// The value of the first attribute that can be read and has the key `key`.
pub open spec fn first_value(
    attributes: Seq<Option<(Seq<char>, Seq<char>)>>,
    key: Seq<char>,
) -> Option<Seq<char>>
    decreases attributes.len(),
{
    if attributes.len() == 0 {
        None
    } else {
        match attributes[0] {
            Some((k, v)) if k == key => Some(v),
            _ => first_value(attributes.drop_first(), key),
        }
    }
}

/// The value of the first attribute that can be read and has the key `key`.
pub fn attribute_value(attributes: &Vec<Option<XmlAttribute>>, key: &str) -> (r: Option<String>)
    ensures
        text_model(r) == first_value(attribute_models(attributes@), key@),
{
    let ghost all = attributes@.map_values(|a: Option<XmlAttribute>| attribute_model(a));
    let mut i: usize = 0;
    assert(all.skip(0) =~= all);
    while i < attributes.len()
        invariant
            i <= attributes.len(),
            all == attributes@.map_values(|a: Option<XmlAttribute>| attribute_model(a)),
            first_value(all, key@) == first_value(all.skip(i as int), key@),
        decreases attributes.len() - i,
    {
        assert(all.skip(i as int)[0] == attribute_model(attributes@[i as int]));
        assert(all.skip(i as int).drop_first() =~= all.skip(i + 1));
        match &attributes[i] {
            Some(a) => {
                if same_text(a.key.as_str(), key) {
                    return Some(a.value.clone());
                }
            },
            None => {},
        }
        i += 1;
    }
    None
}

/// The events that the parser hands out for a text, one after the other, up
/// to and with the first that is the end of the text or says that the text
/// is malformed.
pub uninterp spec fn xml_events(text: Seq<char>) -> Seq<XmlEventModel>;

/// The events that a parser has yet to hand out, up to and with the first
/// that is the end of the text or says that the text is malformed.
pub uninterp spec fn events_left(reader: quick_xml::reader::Reader<&[u8]>) -> Seq<XmlEventModel>;

/// Whether the event ends the events: the end of the text, or a text that
/// is malformed.
pub open spec fn is_last(ev: XmlEventModel) -> bool {
    ev is Eof || ev is Malformed
}

/// The events end with the one event that ends them.
pub open spec fn ends_once(events: Seq<XmlEventModel>) -> bool {
    &&& events.len() > 0
    &&& forall|i: int|
        0 <= i < events.len() ==> (is_last(#[trigger] events[i]) <==> i == events.len() - 1)
}

/// What a list of events stands for.
pub open spec fn event_models(events: Seq<XmlEvent>) -> Seq<XmlEventModel> {
    events.map_values(|e: XmlEvent| e@)
}

/// What a reference stands for, by what stands between its `&` and its
/// `;`; `None` where it stands for nothing.
pub uninterp spec fn resolved(name: Seq<char>) -> Option<Seq<char>>;

/// The attributes of a tag in order, by what is written behind the tag's
/// name: the key and the value of each as they are written, and `None` for
/// one that cannot be read.
pub uninterp spec fn xml_attributes(raw: Seq<char>) -> Seq<Option<(Seq<char>, Seq<char>)>>;

/// What a list of attributes stands for.
pub open spec fn attribute_models(attributes: Seq<Option<XmlAttribute>>) -> Seq<
    Option<(Seq<char>, Seq<char>)>,
> {
    attributes.map_values(|a: Option<XmlAttribute>| attribute_model(a))
}

/// What a text that may be missing stands for.
pub open spec fn text_model(text: Option<String>) -> Option<Seq<char>> {
    match text {
        Some(t) => Some(t@),
        None => None,
    }
}

/// The parser hands out `ev`, the first of the events `before` that it had
/// yet to hand out, and is left with the others, `after`.
pub open spec fn hands_out(
    before: Seq<XmlEventModel>,
    ev: XmlEventModel,
    after: Seq<XmlEventModel>,
) -> bool {
    before.len() > 0 ==> ev == before[0] && after == before.drop_first()
}

/// A parser at the start of `input`.
///
/// Calls `quick_xml::reader::Reader::from_str`. The events that the parser
/// then hands out depend on the text alone and are named `xml_events`; they
/// end with the end of the text or with the first failure.
#[verifier::external_body]
fn reader_of<'a>(input: &'a str) -> (r: quick_xml::reader::Reader<&'a [u8]>)
    ensures
        events_left(r) == xml_events(input@),
        ends_once(events_left(r)),
{
    quick_xml::reader::Reader::from_str(input)
}

/// The next event.
///
/// Calls `quick_xml::reader::Reader::read_event` and copies what the event
/// holds out of it: the name of a tag, the attributes of an empty tag as
/// they are written, the characters of a text, the name of a reference. The
/// event is the first of those that the parser had yet to hand out, and the
/// others are left.
#[verifier::external_body]
fn read_event<'a>(reader: &mut quick_xml::reader::Reader<&'a [u8]>) -> (ev: XmlEvent)
    ensures
        hands_out(events_left(*old(reader)), ev@, events_left(*final(reader))),
{
    match reader.read_event() {
        Ok(Event::Start(e)) => XmlEvent::Start(e.name().0.to_owned()),
        Ok(Event::Empty(e)) => {
            XmlEvent::Empty(e.name().0.to_owned(), e.attributes_raw().to_owned())
        },
        Ok(Event::End(e)) => XmlEvent::End(e.name().0.to_owned()),
        Ok(Event::Text(e)) => XmlEvent::Text(e.into_inner().into_owned()),
        Ok(Event::GeneralRef(e)) => XmlEvent::Ref(e.into_inner().into_owned()),
        Ok(Event::Eof) => XmlEvent::Eof,
        Ok(_) => XmlEvent::Other,
        Err(_) => XmlEvent::Malformed,
    }
}

/// What a reference stands for.
///
/// Calls `quick_xml::escape::unescape` on the reference, written out with
/// its `&` and its `;`. What comes back depends on the name alone and is
/// named `resolved`.
#[verifier::external_body]
fn resolve(name: &str) -> (r: Option<String>)
    ensures
        text_model(r) == resolved(name@),
{
    unescape(&format!("&{};", name)).ok().map(|t| t.into_owned())
}

/// The attributes of a tag, by what is written behind the tag's name.
///
/// Calls `quick_xml::events::attributes::Attributes::new` and walks the
/// attributes; the key and the value of each are copied as they are
/// written. What comes back depends on the text alone and is named
/// `xml_attributes`.
#[verifier::external_body]
fn attributes_of(raw: &str) -> (r: Vec<Option<XmlAttribute>>)
    ensures
        attribute_models(r@) == xml_attributes(raw@),
{
    Attributes::new(raw, 0)
        .map(|a| {
            a.ok().map(|a| XmlAttribute { key: a.key.0.to_owned(), value: a.value.into_owned() })
        })
        .collect()
}

/// The value of the first attribute with the key `key` among the attributes
/// that are written in `raw`.
pub fn attribute_in(raw: &str, key: &str) -> (r: Option<String>)
    ensures
        text_model(r) == first_value(xml_attributes(raw@), key@),
{
    let attributes = attributes_of(raw);
    attribute_value(&attributes, key)
}

/// The events of `text`, in order, up to and with the end of the text or the
/// first failure.
pub fn events_of(text: &str) -> (r: Vec<XmlEvent>)
    ensures
        event_models(r@) == xml_events(text@),
        ends_once(event_models(r@)),
{
    let mut reader = reader_of(text);
    let mut out: Vec<XmlEvent> = Vec::new();
    assert(event_models(out@) + events_left(reader) =~= xml_events(text@));
    loop
        invariant
            ends_once(xml_events(text@)),
            event_models(out@) + events_left(reader) == xml_events(text@),
            events_left(reader).len() > 0,
        decreases events_left(reader).len(),
    {
        let ghost left = events_left(reader);
        let ghost before = out@;
        let ev = read_event(&mut reader);
        let last = match &ev {
            XmlEvent::Eof => true,
            XmlEvent::Malformed => true,
            _ => false,
        };
        out.push(ev);
        proof {
            let all = xml_events(text@);
            assert(event_models(out@) =~= event_models(before).push(ev@));
            assert(all[before.len() as int] == left[0]);
            assert(event_models(out@) + left.drop_first() =~= all);
            assert(last == is_last(all[before.len() as int]));
        }
        if last {
            assert(event_models(out@) =~= xml_events(text@));
            return out;
        }
    }
}

/// How many events stand at `pos` and behind it.
pub open spec fn events_after(events: Seq<XmlEventModel>, pos: int) -> nat {
    if 0 <= pos <= events.len() {
        (events.len() - pos) as nat
    } else {
        0
    }
}

/// Whether the event is a piece of text: characters, or a reference.
pub open spec fn is_piece(ev: XmlEventModel) -> bool {
    ev is Text || ev is Ref
}

/// The text that a piece stands for: the characters as they are written,
/// or what the reference stands for.
pub open spec fn piece(ev: XmlEventModel) -> Option<Seq<char>> {
    match ev {
        XmlEventModel::Text(text) => Some(text),
        XmlEventModel::Ref(name) => resolved(name),
        _ => None,
    }
}

/// How many pieces of text stand at `from`, one behind the other.
pub open spec fn text_run(events: Seq<XmlEventModel>, from: int) -> nat
    decreases events.len() - from,
{
    if 0 <= from < events.len() && is_piece(events[from]) {
        1 + text_run(events, from + 1)
    } else {
        0
    }
}

/// The `n` pieces of text from `from` on, joined; `None` where one of them
/// stands for nothing.
pub open spec fn joined(events: Seq<XmlEventModel>, from: int, n: nat) -> Option<Seq<char>>
    decreases n,
{
    if n == 0 {
        Some(Seq::empty())
    } else {
        match (joined(events, from, (n - 1) as nat), piece(events[from + n - 1])) {
            (Some(text), Some(more)) => Some(text + more),
            _ => None,
        }
    }
}

/// How many elements named `name` are open after the event `ev`, where
/// `depth` were open before it.
pub open spec fn depth_after(ev: XmlEventModel, name: Seq<char>, depth: nat) -> nat {
    match ev {
        XmlEventModel::Start(n) if n == name => depth + 1,
        XmlEventModel::End(n) if n == name && depth > 0 => (depth - 1) as nat,
        _ => depth,
    }
}

/// How many events lead from `from` to behind the end tag that closes the
/// element named `name` in which `from` stands, where `depth` elements of
/// that name are open inside it; `None` where the events end before.
pub open spec fn close_len(events: Seq<XmlEventModel>, from: int, name: Seq<char>, depth: nat) -> Option<
    nat,
>
    decreases events.len() - from,
{
    if from < 0 || from >= events.len() || is_last(events[from]) {
        None
    } else if depth == 0 && events[from] == XmlEventModel::End(name) {
        Some(1)
    } else {
        match close_len(events, from + 1, name, depth_after(events[from], name, depth)) {
            Some(n) => Some(n + 1),
            None => None,
        }
    }
}

/// The content of the element named `name` whose start tag stands just
/// before `from`, and how many events lead to behind its end tag: the
/// pieces of text that stand at `from`, joined; what follows them up to the
/// end tag is passed over. `None` where a piece stands for nothing or the
/// events end before the end tag.
pub open spec fn content_at(events: Seq<XmlEventModel>, from: int, name: Seq<char>) -> Option<
    (Seq<char>, nat),
> {
    let n = text_run(events, from);
    match (joined(events, from, n), close_len(events, from + n, name, 0)) {
        (Some(text), Some(m)) => Some((text, n + m)),
        _ => None,
    }
}

/// The end tag that closes an element stands inside the events.
pub proof fn lemma_close_in_reach(
    events: Seq<XmlEventModel>,
    from: int,
    name: Seq<char>,
    depth: nat,
)
    requires
        0 <= from,
    ensures
        close_len(events, from, name, depth) matches Some(n) ==> n >= 1 && from + n
            <= events.len(),
    decreases events.len() - from,
{
    if from < events.len() {
        lemma_close_in_reach(events, from + 1, name, depth_after(events[from], name, depth));
    }
}

/// The pieces of text that stand at a position stand inside the events.
pub proof fn lemma_text_in_reach(events: Seq<XmlEventModel>, from: int)
    requires
        0 <= from <= events.len(),
    ensures
        from + text_run(events, from) <= events.len(),
    decreases events.len() - from,
{
    if from < events.len() && is_piece(events[from]) {
        lemma_text_in_reach(events, from + 1);
    }
}

/// A content that can be read ends inside the events, behind at least the
/// end tag.
pub proof fn lemma_content_in_reach(events: Seq<XmlEventModel>, from: int, name: Seq<char>)
    requires
        0 <= from,
    ensures
        content_at(events, from, name) matches Some((_, n)) ==> n >= 1 && from + n
            <= events.len(),
{
    lemma_close_in_reach(events, from + text_run(events, from), name, 0);
}

/// Whether the event is a piece of text.
pub fn is_text(ev: &XmlEvent) -> (b: bool)
    ensures
        b == is_piece(ev@),
{
    match ev {
        XmlEvent::Text(_) => true,
        XmlEvent::Ref(_) => true,
        _ => false,
    }
}

/// The text that a piece stands for.
pub fn text_of(ev: &XmlEvent) -> (r: Option<String>)
    ensures
        text_model(r) == piece(ev@),
{
    match ev {
        XmlEvent::Text(text) => Some(text.clone()),
        XmlEvent::Ref(name) => resolve(name.as_str()),
        _ => None,
    }
}

/// The position behind the end tag that closes the element named `name` in
/// which `from` stands; `None` where the events end before.
pub fn skip_to_close(events: &Vec<XmlEvent>, from: usize, name: &str) -> (r: Option<usize>)
    ensures
        match close_len(event_models(events@), from as int, name@, 0) {
            Some(n) => r == Some((from + n) as usize) && from < from + n <= events@.len(),
            None => r is None,
        },
{
    let ghost all = event_models(events@);
    proof {
        lemma_close_in_reach(all, from as int, name@, 0);
    }
    let mut i: usize = from;
    let mut depth: usize = 0;
    while i < events.len()
        invariant
            from <= i,
            all == event_models(events@),
            depth <= i - from,
            close_len(all, from as int, name@, 0) == (match close_len(
                all,
                i as int,
                name@,
                depth as nat,
            ) {
                Some(n) => Some((n + (i - from)) as nat),
                None => None,
            }),
        decreases events.len() - i,
    {
        assert(all[i as int] == events@[i as int]@);
        match &events[i] {
            XmlEvent::Eof => {
                return None;
            },
            XmlEvent::Malformed => {
                return None;
            },
            XmlEvent::Start(n) => {
                if same_text(n.as_str(), name) {
                    depth = depth + 1;
                }
            },
            XmlEvent::End(n) => {
                if same_text(n.as_str(), name) {
                    if depth == 0 {
                        return Some(i + 1);
                    }
                    depth = depth - 1;
                }
            },
            _ => {},
        }
        i += 1;
    }
    None
}

/// The content of the element named `name` whose start tag stands just
/// before `from`, and the position behind its end tag.
pub fn read_content(events: &Vec<XmlEvent>, from: usize, name: &str) -> (r: Option<(String, usize)>)
    ensures
        match content_at(event_models(events@), from as int, name@) {
            Some((text, n)) => r matches Some((s, next)) && s@ == text && next == from + n && from
                < next <= events@.len(),
            None => r is None,
        },
{
    let ghost all = event_models(events@);
    proof {
        lemma_content_in_reach(all, from as int, name@);
    }
    let mut i: usize = from;
    let mut text: Vec<char> = Vec::new();
    let mut whole = true;
    while i < events.len() && is_text(&events[i])
        invariant
            from <= i,
            all == event_models(events@),
            text_run(all, from as int) == (i - from) + text_run(all, i as int),
            joined(all, from as int, (i - from) as nat) == (if whole {
                Some(text@)
            } else {
                None
            }),
        decreases events.len() - i,
    {
        assert(all[i as int] == events@[i as int]@);
        let ghost before = text@;
        match text_of(&events[i]) {
            Some(piece) => {
                let more = chars_of(piece.as_str());
                append(&mut text, &more);
                assert(text@ == before + piece@);
            },
            None => {
                whole = false;
            },
        }
        i += 1;
    }
    assert(i < events@.len() ==> all[i as int] == events@[i as int]@);
    let next = skip_to_close(events, i, name);
    if !whole {
        return None;
    }
    match next {
        Some(next) => Some((string_of(&text), next)),
        None => None,
    }
}

} // verus!
