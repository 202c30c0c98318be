use wikitools::anchor::Anchor;
use wikitools::page_iter::{
    action_for, is_filtered_title, page_texts, PageAction, PageIterator, RawPageIterator,
    TantivyPageIterator,
};
use wikitools::xml::{
    attribute_in, events_of, is_text, read_content, skip_to_close, text_of, XmlEvent,
};

const DUMP: &str = r#"
<page>
  <title>Paris</title>
  <id>1</id>
  <revision><id>11</id><text>The capital of [[France]] &amp; more.</text></revision>
</page>
<page>
  <title>Lutetia</title>
  <id>2</id>
  <redirect title="Paris" />
  <revision><id>12</id><text>#REDIRECT [[Paris]]</text></revision>
</page>
<page>
  <title>Template:Infobox</title>
  <id>3</id>
  <revision><id>13</id><text>{{{1}}}</text></revision>
</page>
<page>
  <title>Texas</title>
  <id>4</id>
  <revision><id>14</id><text>See [[Paris, Texas|Paris]].</text></revision>
</page>
"#;

#[test]
fn pages_are_read_in_order() {
    let mut it = PageIterator::new(DUMP);
    let first = it.next().unwrap();
    assert_eq!(first.title, "Paris");
    assert_eq!(first.id, "11");
    assert_eq!(first.anchors, vec![Anchor::Direct("France".to_owned())]);
    let second = it.next().unwrap();
    assert_eq!(second.title, "Texas");
    assert_eq!(
        second.anchors,
        vec![Anchor::Label { surface: "Paris".to_owned(), page: "Paris, Texas".to_owned() }]
    );
    assert!(it.next().is_none());
    assert!(it.next().is_none());
}

#[test]
fn raw_pages_and_triples() {
    let mut raw = RawPageIterator(PageIterator::new(DUMP));
    assert_eq!(raw.next().unwrap(), "The capital of [[France]] & more.");
    assert_eq!(raw.next().unwrap(), "See [[Paris, Texas|Paris]].");
    assert!(raw.next().is_none());
    let mut triples = TantivyPageIterator(PageIterator::new(DUMP));
    assert_eq!(
        triples.next().unwrap(),
        ("11".to_owned(), "Paris".to_owned(), "The capital of [[France]] & more.".to_owned())
    );
}

#[test]
fn malformed_text_ends_the_pages() {
    let mut it = PageIterator::new("<page><title>A</title><text>x</text></page><page><title>B</title><text>never closed");
    assert_eq!(it.next().unwrap().title, "A");
    assert!(it.next().is_none());
}

#[test]
fn actions_of_the_page_machine() {
    let start = |name: &str| XmlEvent::Start(name.to_owned());
    assert_eq!(action_for(&start("text"), "Paris"), PageAction::ReadText);
    assert_eq!(action_for(&start("text"), "File:X"), PageAction::Next);
    assert_eq!(action_for(&start("id"), "Paris"), PageAction::ReadId);
    assert_eq!(action_for(&start("title"), "Paris"), PageAction::ReadTitle);
    assert_eq!(action_for(&start("page"), "Paris"), PageAction::Next);
    assert_eq!(
        action_for(&XmlEvent::Empty("redirect".to_owned(), String::new()), "Paris"),
        PageAction::SkipPage
    );
    assert_eq!(action_for(&XmlEvent::Empty("br".to_owned(), String::new()), "Paris"), PageAction::Next);
    assert_eq!(action_for(&XmlEvent::End("page".to_owned()), "Paris"), PageAction::Next);
    assert_eq!(action_for(&XmlEvent::Other, "Paris"), PageAction::Next);
    assert_eq!(action_for(&XmlEvent::Text("x".to_owned()), "Paris"), PageAction::Next);
    assert_eq!(action_for(&XmlEvent::Ref("amp".to_owned()), "Paris"), PageAction::Next);
    assert_eq!(action_for(&XmlEvent::Eof, "Paris"), PageAction::Stop);
    assert_eq!(action_for(&XmlEvent::Malformed, "Paris"), PageAction::Stop);
    for title in ["File:a", "Template:a", "Wikipedia:a", "User talk:a", "File talk:a"] {
        assert!(is_filtered_title(title));
    }
    assert!(!is_filtered_title("Portal:a"));
}

#[test]
fn behind_the_last_event_nothing_is_read() {
    let mut it = PageIterator::new(DUMP);
    let all = it.events.len();
    it.pos = all;
    it.title = "kept".to_owned();
    assert!(it.next_raw().is_none());
    assert!(it.next().is_none());
    assert_eq!(it.title, "kept");
    assert_eq!(it.pos, all);
    it.pos = 0;
    assert_eq!(it.next().unwrap().title, "Paris");
    let mut ended = PageIterator::new("<page><title>A</title><text>never closed");
    assert!(ended.next().is_none());
    assert_eq!(ended.pos, ended.events.len());
    assert_eq!(ended.title, "A");
}

#[test]
fn the_events_of_a_text() {
    let start = |name: &str| XmlEvent::Start(name.to_owned());
    let end = |name: &str| XmlEvent::End(name.to_owned());
    let text = |t: &str| XmlEvent::Text(t.to_owned());
    let reference = |t: &str| XmlEvent::Ref(t.to_owned());
    assert_eq!(events_of(""), vec![XmlEvent::Eof]);
    assert_eq!(
        events_of("<a>x &amp; y&#65;</a><b k=\"v\"/><!-- c -->"),
        vec![
            start("a"),
            text("x "),
            reference("amp"),
            text(" y"),
            reference("#65"),
            end("a"),
            XmlEvent::Empty("b".to_owned(), " k=\"v\"".to_owned()),
            XmlEvent::Other,
            XmlEvent::Eof,
        ]
    );
    assert_eq!(events_of("<a>&nothing;</a>")[1], reference("nothing"));
    assert_eq!(text_of(&reference("amp")), Some("&".to_owned()));
    assert_eq!(text_of(&reference("#65")), Some("A".to_owned()));
    assert_eq!(text_of(&reference("#x263A")), Some("\u{263a}".to_owned()));
    assert_eq!(text_of(&reference("nothing")), None);
    assert_eq!(text_of(&text("as it is")), Some("as it is".to_owned()));
    assert_eq!(text_of(&start("a")), None);
    assert_eq!(
        attribute_in(" k=\"v\" title=\"A &amp; B\"", "title"),
        Some("A &amp; B".to_owned())
    );
    assert_eq!(attribute_in(" k=\"v\"", "title"), None);
    assert_eq!(attribute_in("", "title"), None);
    let broken = events_of("<a></b>tail");
    assert_eq!(broken, vec![start("a"), XmlEvent::Malformed]);
    assert!(is_text(&text("x")));
    assert!(is_text(&reference("amp")));
    assert!(!is_text(&start("x")));
}

#[test]
fn the_content_of_an_element() {
    let events = events_of("<t>a&lt;b<i>in</i> tail</t><u><u>x</u></u><v>&bad;</v><w>open");
    assert_eq!(read_content(&events, 1, "t"), Some(("a<b".to_owned(), 9)));
    assert_eq!(skip_to_close(&events, 1, "t"), Some(9));
    assert_eq!(read_content(&events, 10, "u"), Some(("".to_owned(), 14)));
    assert_eq!(skip_to_close(&events, 10, "u"), Some(14));
    assert_eq!(read_content(&events, 15, "v"), None);
    assert_eq!(skip_to_close(&events, 15, "v"), Some(17));
    assert_eq!(read_content(&events, 18, "w"), None);
    assert_eq!(skip_to_close(&events, 18, "w"), None);
    assert_eq!(read_content(&events, 1000, "t"), None);
    assert_eq!(read_content(&events_of("<t></t>"), 1, "t"), Some(("".to_owned(), 2)));
}

#[test]
fn titles_and_ids_are_read_where_the_iterator_stands() {
    let mut it = PageIterator::new("<title>T &amp; U</title><id>7</id><id>");
    it.pos = 1;
    assert!(it.extract_title());
    assert_eq!(it.title, "T & U");
    assert_eq!(it.pos, 5);
    it.pos = 6;
    assert!(it.extract_id());
    assert_eq!(it.id, "7");
    assert_eq!(it.pos, 8);
    it.pos = 9;
    assert!(!it.extract_id());
    assert_eq!(it.id, "7");
    assert_eq!(it.pos, it.events.len());
    assert!(!it.extract_title());
    assert_eq!(it.title, "T & U");
}

#[test]
fn the_texts_of_the_pages_that_are_kept() {
    assert_eq!(
        page_texts(DUMP),
        vec!["The capital of [[France]] & more.".to_owned(), "See [[Paris, Texas|Paris]].".to_owned()]
    );
    assert_eq!(page_texts(""), Vec::<String>::new());
    assert_eq!(
        page_texts("<page><title>A</title><text>one</text></page><page><title>B</title><text>two"),
        vec!["one".to_owned()]
    );
}

#[test]
fn pages_of_given_events() {
    let mut it = PageIterator::from_events(events_of(DUMP));
    assert_eq!(it.next().unwrap().title, "Paris");
    assert_eq!(it.next().unwrap().title, "Texas");
    assert!(it.next().is_none());
    let mut none = PageIterator::from_events(vec![]);
    assert!(none.next().is_none());
}
