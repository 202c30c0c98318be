use wikitools::redirect::{
    extract_xml, is_valid_alias, redirect_action, Redirect, RedirectAction, RedirectIterator,
};
use wikitools::template::{
    extract_templates, templates_in, Template, TemplateAction, TemplateState,
};
use wikitools::tsv::{dump_redirects_tsv, redirects_tsv, unique_lines};
use wikitools::xml::{attribute_value, events_of, XmlAttribute, XmlEvent};

const TEST_XML: &str = r#"
        <page>
            <title>Not a Test Template</title>
            <text>Invalid text</text>
        </page>
        <page>
            <title>Template:Test Template</title>
            <text>Valid text</text>
        </page>
        <page>
            <title>Template Test</title>
            <text>Invalid text</text>
        </page>
        <page>
            <title>Template:Second Template</title>
            <text>Another set of text</text>
        </page>
        "#;

#[test]
fn templates_test_extraction() {
    let templates = extract_templates(TEST_XML);
    assert_eq!(templates.len(), 2);
    let template = &templates[0];
    assert_eq!(template.title, "Template:Test Template");
    assert_eq!(template.page, "Valid text");
    let template = &templates[1];
    assert_eq!(template.title, "Template:Second Template");
    assert_eq!(template.page, "Another set of text");
}

#[test]
fn mod_test_extraction() {
    let templates = extract_templates(TEST_XML);
    assert_eq!(templates.len(), 2);
    let template = &templates[0];
    assert_eq!(template.title(), "Template:Test Template");
    assert_eq!(template.page(), "Valid text");
    let template = &templates[1];
    assert_eq!(template.title(), "Template:Second Template");
    assert_eq!(template.page(), "Another set of text");
}

#[test]
fn a_template_is_written_as_a_page() {
    let t = Template::from_unclean("Template:T".to_owned(), "body".to_owned());
    assert_eq!(
        t.to_string(),
        "<page>\n   <title>Template:T</title>\n   <ns>10</ns>\n   <text>body\n   </text>\n</page>"
    );
    assert_eq!(
        Template::clean("a".to_owned(), "b".to_owned()),
        ("a".to_owned(), "b".to_owned())
    );
}

#[test]
fn malformed_text_ends_the_templates() {
    let xml = "<page><title>Template:A</title><text>a</text></page><page><title>Template:B</title><text>b";
    let templates = extract_templates(xml);
    assert_eq!(templates.len(), 1);
    assert_eq!(templates[0].title, "Template:A");
    assert_eq!(extract_templates("").len(), 0);
}

#[test]
fn steps_of_the_template_machine() {
    let start = |name: &str| XmlEvent::Start(name.to_owned());
    let end = |name: &str| XmlEvent::End(name.to_owned());
    let mut s = TemplateState::new();
    assert_eq!(s.on_event(&start("title")).0, TemplateAction::Next);
    assert_eq!(s.on_event(&start("page")).0, TemplateAction::Next);
    assert!(s.in_page);
    assert_eq!(s.on_event(&start("text")).0, TemplateAction::Next);
    assert_eq!(s.on_event(&start("title")).0, TemplateAction::ReadTitle);
    s.on_title("Template:X".to_owned());
    assert!(s.in_template);
    assert_eq!(s.on_event(&start("text")).0, TemplateAction::ReadText);
    s.on_text("body".to_owned());
    assert_eq!(s.on_event(&end("text")).0, TemplateAction::Next);
    assert_eq!(s.on_event(&XmlEvent::Other).0, TemplateAction::Next);
    let (action, template) = s.on_event(&end("page"));
    assert_eq!(action, TemplateAction::Emit);
    let template = template.unwrap();
    assert_eq!(template.title, "Template:X");
    assert_eq!(template.page, "body");
    assert!(!s.in_page && !s.in_template);
    assert_eq!(s.title, "");
    assert_eq!(s.page, "");
    assert_eq!(s.on_event(&start("page")).0, TemplateAction::Next);
    s.on_title("Template:Y".to_owned());
    assert!(s.in_template);
    s.on_title("Plain".to_owned());
    assert!(!s.in_template);
    let (action, template) = s.on_event(&end("page"));
    assert_eq!(action, TemplateAction::Next);
    assert!(template.is_none());
    assert_eq!(s.title, "Plain");
    assert_eq!(s.on_event(&XmlEvent::Eof).0, TemplateAction::Stop);
    assert_eq!(s.on_event(&XmlEvent::Malformed).0, TemplateAction::Stop);
    assert_eq!(s.on_event(&XmlEvent::Empty("br".to_owned(), String::new())).0, TemplateAction::Next);
}

const REDIRECTS: &str = r#"
<page><title>Lutetia</title><redirect title="Paris" /><text>x</text></page>
<page><title>List of cities</title><redirect title="Cities" /></page>
<page><title>Paris</title><text>no redirect</text></page>
<page><title>Wikipedia:About</title><redirect title="Help" /></page>
<page><title>AT&amp;T</title><redirect other="1" title="AT&amp;T Inc." /></page>
<page><title>Nothing</title><redirect /></page>
"#;

#[test]
fn redirects_from_valid_aliases() {
    let mut it = RedirectIterator::new(REDIRECTS);
    assert_eq!(
        it.next(),
        Some(Redirect { from: "Lutetia".to_owned(), to: "Paris".to_owned() })
    );
    assert_eq!(
        it.next(),
        Some(Redirect { from: "AT&T".to_owned(), to: "AT&amp;T Inc.".to_owned() })
    );
    assert_eq!(it.next(), None);
    assert_eq!(it.invalid, 2);
    let (found, invalid) = extract_xml(REDIRECTS);
    assert_eq!(found.len(), 2);
    assert_eq!(invalid, 2);
    assert_eq!(found[0].to_line(), "Lutetia\tParis\n");
    assert_eq!(
        dump_redirects_tsv(REDIRECTS),
        vec!["Lutetia\tParis\n".to_owned(), "AT&T\tAT&amp;T Inc.\n".to_owned()]
    );
}

#[test]
fn aliases_and_actions() {
    assert!(is_valid_alias("Lutetia"));
    for title in ["Wikipedia:a", "Template:a", "Portal:a", "List of a"] {
        assert!(!is_valid_alias(title));
    }
    assert!(is_valid_alias("List of"));
    let attr = |k: &str, v: &str| Some(XmlAttribute { key: k.to_owned(), value: v.to_owned() });
    let redirect = XmlEvent::Empty("redirect".to_owned(), " x=\"1\" title=\"A\" y=\"B\"".to_owned());
    assert_eq!(
        redirect_action(&redirect, "T"),
        RedirectAction::Found(Redirect { from: "T".to_owned(), to: "A".to_owned() })
    );
    assert_eq!(redirect_action(&redirect, "Portal:T"), RedirectAction::Invalid);
    assert_eq!(
        redirect_action(&XmlEvent::Empty("redirect".to_owned(), String::new()), "T"),
        RedirectAction::Next
    );
    assert_eq!(
        redirect_action(&XmlEvent::Start("title".to_owned()), "T"),
        RedirectAction::ReadTitle
    );
    assert_eq!(redirect_action(&XmlEvent::Start("text".to_owned()), "T"), RedirectAction::Next);
    assert_eq!(redirect_action(&XmlEvent::Eof, "T"), RedirectAction::Stop);
    assert_eq!(redirect_action(&XmlEvent::Malformed, "T"), RedirectAction::Stop);
    assert_eq!(redirect_action(&XmlEvent::Other, "T"), RedirectAction::Next);
    assert_eq!(attribute_value(&vec![attr("a", "1"), attr("b", "2")], "b"), Some("2".to_owned()));
    assert_eq!(attribute_value(&vec![attr("a", "1")], "b"), None);
}

#[test]
fn the_count_of_other_redirects() {
    let mut it = RedirectIterator::new(REDIRECTS);
    it.invalid = usize::MAX;
    assert_eq!(it.next().unwrap().from, "Lutetia");
    assert_eq!(it.next().unwrap().from, "AT&T");
    assert_eq!(it.next(), None);
    assert_eq!(it.invalid, usize::MAX);
    assert_eq!(it.pos, it.events.len());
    assert_eq!(it.next(), None);
    let mut cut = RedirectIterator::new("<title>A</title><redirect title=\"B\"/><title>C");
    assert_eq!(cut.next(), Some(Redirect { from: "A".to_owned(), to: "B".to_owned() }));
    assert_eq!(cut.next(), None);
    assert_eq!(cut.title, "A");
    assert_eq!(extract_xml(""), (vec![], 0));
}

#[test]
fn templates_and_redirects_of_given_events() {
    let start = |name: &str| XmlEvent::Start(name.to_owned());
    let end = |name: &str| XmlEvent::End(name.to_owned());
    let text = |t: &str| XmlEvent::Text(t.to_owned());
    let events = vec![
        start("page"),
        start("title"),
        text("Template:A"),
        end("title"),
        start("text"),
        text("body "),
        XmlEvent::Ref("amp".to_owned()),
        text(" more"),
        end("text"),
        end("page"),
        start("page"),
        start("title"),
        text("B"),
        end("title"),
        XmlEvent::Empty("redirect".to_owned(), " title=\"C\"".to_owned()),
        start("text"),
        text("x"),
        end("text"),
        end("page"),
        XmlEvent::Eof,
    ];
    let found = templates_in(&events);
    assert_eq!(found.len(), 1);
    assert_eq!(found[0].title, "Template:A");
    assert_eq!(found[0].page, "body & more");
    assert_eq!(templates_in(&vec![]).len(), 0);
    assert_eq!(templates_in(&events_of(TEST_XML)).len(), extract_templates(TEST_XML).len());
    let mut reds = RedirectIterator::from_events(events);
    assert_eq!(reds.next(), Some(Redirect { from: "B".to_owned(), to: "C".to_owned() }));
    assert_eq!(reds.next(), None);
}

#[test]
fn the_lines_of_redirects_are_written_once() {
    let (lines, invalid) = redirects_tsv(REDIRECTS);
    assert_eq!(lines, dump_redirects_tsv(REDIRECTS));
    assert_eq!(invalid, 2);
    let twice: Vec<String> = lines.iter().chain(lines.iter()).cloned().collect();
    assert_eq!(unique_lines(&twice), lines);
    let mixed: Vec<String> = ["b", "a", "b", "c", "a", "a", ""].iter().map(|s| s.to_string()).collect();
    assert_eq!(unique_lines(&mixed), vec!["b", "a", "c", ""]);
    assert_eq!(unique_lines(&vec![]), Vec::<String>::new());
}
