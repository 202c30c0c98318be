use wikitools::anchor::Anchor;
use wikitools::category::Category;
use wikitools::page::Page;

fn direct(name: &str) -> Anchor {
    Anchor::Direct(name.to_owned())
}

fn label(surface: &str, page: &str) -> Anchor {
    Anchor::Label { surface: surface.to_owned(), page: page.to_owned() }
}

#[test]
fn test_direct_anchor_trims_whitespace() {
    let anchor = Anchor::parse("  page");
    assert_eq!(anchor, Anchor::Direct("page".to_owned()));
}

#[test]
fn test_label_anchor_trims_whitespace() {
    let anchor = Anchor::parse("  page  | label  ");
    assert_eq!(
        anchor,
        Anchor::Label { surface: "label".to_owned(), page: "page".to_owned() }
    );
}

#[test]
fn parse_strips_apostrophes_and_fragment() {
    assert_eq!(Anchor::parse("Paris#History|''Paris''"), label("Paris", "Paris"));
    assert_eq!(Anchor::parse("Paris#History|"), direct("Paris"));
    assert_eq!(Anchor::parse("Paris|''"), direct("Paris"));
    assert_eq!(Anchor::parse("a|b|c"), label("b|c", "a"));
    assert_eq!(Anchor::parse("\u{a0}x\u{3000}"), direct("x"));
}

#[test]
fn parse_keeps_white_space_before_a_fragment() {
    assert_eq!(Anchor::parse("a #b|c"), label("c", "a "));
    assert_eq!(Anchor::parse("a |c"), label("c", "a"));
}

#[test]
fn parse_reads_its_own_token_back() {
    for token in ["page", "  page  | label  ", "a|b|c", "x | y z"] {
        let first = Anchor::parse(token);
        let written = match &first {
            Anchor::Direct(name) => name.clone(),
            Anchor::Label { surface, page } => format!("{}|{}", page, surface),
        };
        assert_eq!(Anchor::parse(&written), first);
    }
}

#[test]
fn pare_anchor_match_finds_the_token() {
    assert_eq!(Anchor::pare_anchor_match("foo [[bar]] baz", 4), Some("bar"));
    assert_eq!(Anchor::pare_anchor_match("[[#section]]", 0), None);
    assert_eq!(Anchor::pare_anchor_match("[[File:X.png]]", 0), None);
    assert_eq!(Anchor::pare_anchor_match("[[wikt:word]]", 0), None);
    assert_eq!(Anchor::pare_anchor_match("[[:de:Hund]]", 0), Some(":de:Hund"));
    assert_eq!(Anchor::pare_anchor_match("[[1a:b]]", 0), Some("1a:b"));
    assert_eq!(Anchor::pare_anchor_match("[[never closed", 0), None);
    assert_eq!(Anchor::pare_anchor_match("é[[ü|x]]", 2), Some("ü|x"));
    assert_eq!(Anchor::pare_anchor_match("\u{1F600}é[[a]]", 6), Some("a"));
    assert_eq!(Anchor::pare_anchor_match("[[a", 0), None);
    assert_eq!(Anchor::pare_anchor_match("[[", 0), None);
}

#[test]
fn predicates_on_tokens() {
    assert!(Anchor::is_file("File:X.png"));
    assert!(Anchor::is_file("Image:X.png"));
    assert!(!Anchor::is_file("file:X.png"));
    assert!(Anchor::is_wiktionary("wikt:a"));
    assert!(Anchor::is_wiktionary("wiktionary:a"));
    assert!(!Anchor::is_wiktionary("wik"));
    assert!(Anchor::is_wikisource("s:a"));
    assert!(!Anchor::is_wikisource("v:a"));
    assert!(Anchor::is_wikiversity("v:a"));
    assert!(!Anchor::is_wikiversity(""));
    assert!(Anchor::is_handle("hdl:1"));
    assert!(!Anchor::is_handle("hd"));
}

#[test]
fn one_direct_link_and_no_category() {
    assert_eq!(Page::extract_anchors("foo [[bar]] baz"), vec![direct("bar")]);
    assert_eq!(Page::extract_categories("foo [[bar]] baz"), vec![]);
}

#[test]
fn links_with_a_scheme_are_passed_over() {
    let body = "see [[Apple|apples]] and [[File:X.png]] and [[:de:Hund]]";
    assert_eq!(
        Page::extract_anchors(body),
        vec![label("apples", "Apple"), direct(":de:Hund")]
    );
}

#[test]
fn links_before_references_and_categories_after() {
    let body = "x [[Paris]] y ==References== z [[Category:Cities|C]] w";
    assert_eq!(Page::extract_anchors(body), vec![direct("Paris")]);
    assert_eq!(Page::extract_categories(body), vec![Category("Cities".to_owned())]);
    let moved = "x [[Paris]] y [[Category:Cities|C]] ==References== z w";
    assert_eq!(Page::extract_categories(moved), vec![]);
    assert_eq!(Page::extract_anchors(moved), vec![direct("Paris")]);
}

#[test]
fn the_last_references_heading_counts() {
    let body = "[[a]] ==References== [[b]] [[Category:One]] ==References== [[c]] [[Category:Two]]";
    assert_eq!(Page::extract_anchors(body), vec![direct("a"), direct("b")]);
    assert_eq!(Page::extract_categories(body), vec![Category("Two".to_owned())]);
}

#[test]
fn edge_cases_of_links() {
    assert_eq!(Page::extract_anchors("[[ ]] [[]] [[x]]"), vec![direct("x")]);
    assert_eq!(Page::extract_anchors("[[a [[b]] c"), vec![direct("a [[b"), direct("b")]);
    assert_eq!(Page::extract_anchors("[[[a]]"), vec![direct("[a")]);
    assert_eq!(Page::extract_anchors("[[a]] [[b"), vec![direct("a")]);
    assert_eq!(Page::extract_anchors(""), vec![]);
    assert_eq!(Page::extract_anchors("["), vec![]);
}

#[test]
fn categories_without_a_bar() {
    assert_eq!(
        Page::extract_categories("[[Category:A]][[Category:B|b]][[Cat:C]][[Category:D"),
        vec![Category("A".to_owned()), Category("B".to_owned())]
    );
    assert_eq!(Category("Cities".to_owned()).fqn(), "Category:Cities");
}

#[test]
fn a_page_holds_what_its_text_holds() {
    let page = Page::new("T".to_owned(), "7".to_owned(), "[[a|b]] ==References== [[Category:C]]");
    assert_eq!(page.title, "T");
    assert_eq!(page.id, "7");
    assert_eq!(page.title_stripped(), "T");
    assert_eq!(page.anchors, vec![label("b", "a")]);
    assert_eq!(page.categories, vec![Category("C".to_owned())]);
    assert_eq!(page.anchors[0].target(), "a");
    assert_eq!(page.anchors[0].shown(), "b");
}
