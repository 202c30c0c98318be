use wikitools::anchor::Anchor;
use wikitools::category::Category;
use wikitools::doc::Doc;
use wikitools::page::Page;
use wikitools::search_index::{commit_due, outlinks_of, Document, COMMIT_EVERY};
use wikitools::settings::{Anchors, Data, Indices, SearchIndex, Settings};
use wikitools::tsv::{extract_with_writer, write_anchors_tsv};
use wikitools::utils::{done_message_of, Timer};
use wikitools::writer::{
    quote, AnchorWriterJSONL, AnchorWriterTSV, CategoryWriterJSONL, CategoryWriterTSV, PageWriter,
};

fn page() -> Page {
    Page {
        title: "Paris".to_owned(),
        id: "7".to_owned(),
        anchors: vec![
            Anchor::Direct("France".to_owned()),
            Anchor::Label { surface: "the \"city\"".to_owned(), page: "City \"X\"".to_owned() },
        ],
        categories: vec![Category("Capitals".to_owned()), Category("A \"b\"".to_owned())],
    }
}

#[test]
fn pages_are_written_in_four_ways() {
    assert_eq!(
        CategoryWriterTSV::write(page()),
        "7\tParis\t\"Capitals\",\"A \\\"b\\\"\"\n"
    );
    assert_eq!(
        CategoryWriterJSONL::write(page()),
        "{ \"title\": \"Paris\", \"id\": 7, \"categories\": [\"Capitals\", \"A \\\"b\\\"\"] },\n"
    );
    assert_eq!(
        AnchorWriterTSV::write(page()),
        "7\tParis\tFrance\tFrance\n7\tParis\tthe \"city\"\tCity \"X\"\n"
    );
    assert_eq!(
        AnchorWriterJSONL::write(page()),
        "{ \"title\": \"Paris\", \"id\": 7, \"anchors\": [\"France\", \"City \\\"X\\\"\"] },\n"
    );
    let empty = Page::default();
    assert_eq!(CategoryWriterTSV::write(empty.clone()), "\t\t\n");
    assert_eq!(AnchorWriterTSV::write(empty.clone()), "");
    assert_eq!(
        AnchorWriterJSONL::write(empty),
        "{ \"title\": \"\", \"id\": , \"anchors\": [] },\n"
    );
    assert_eq!(quote("a\"b").iter().collect::<String>(), "\"a\\\"b\"");
}

const DUMP: &str = "<page><title>A</title><id>1</id><text>[[B]] and [[C|c]]</text></page><page><title>Template:T</title><text>[[X]]</text></page><page><title>D</title><id>4</id><text>none ==References== [[Category:K]]</text></page>";

#[test]
fn the_pages_of_a_text_are_written_in_order() {
    assert_eq!(write_anchors_tsv(DUMP), vec!["1\tA\tB\tB\n1\tA\tc\tC\n", ""]);
    assert_eq!(
        extract_with_writer::<CategoryWriterTSV>(DUMP),
        vec!["1\tA\t\n", "4\tD\t\"K\"\n"]
    );
}

#[test]
fn links_become_one_token_each() {
    assert_eq!(outlinks_of("foo [[bar]] baz"), "bar");
    assert_eq!(
        outlinks_of("[[Nicolas Poussin]] [[The Louvre|museum]] [[File:x]] ==References== [[Late]]"),
        "Nicolas_Poussin The_Louvre"
    );
    assert_eq!(outlinks_of("none"), "");
    let doc = Document::new("12", "T", "[[a b]] c").unwrap();
    assert_eq!(doc.id, 12);
    assert_eq!(doc.title, "T");
    assert_eq!(doc.content, "[[a b]] c");
    assert_eq!(doc.outlinks, "a_b");
    assert_eq!(Document::new("x", "T", "c"), None);
    assert_eq!(Document::new("", "T", "c"), None);
}

#[test]
fn default_paths() {
    assert_eq!(Indices::default_indices_path(), "indices");
    assert_eq!(Indices::default_template_indices_path(), "template_indices");
    assert_eq!(Anchors::default_anchors_path(), "anchors.tsv");
    assert_eq!(Anchors::default_anchor_counts_path(), "anchor_counts.tsv");
    assert_eq!(Settings::default_templates_path(), "templates.xml");
    assert_eq!(
        Indices::default(),
        Indices { pages: "indices".to_owned(), templates: "template_indices".to_owned() }
    );
    let data = Data { dump: "d".to_owned(), index: "i".to_owned() };
    let anchors = Anchors { anchors: "a".to_owned(), anchor_counts: "c".to_owned() };
    let search = SearchIndex { index_dir: "s".to_owned() };
    let settings = Settings::with_defaults(data.clone(), None, None, anchors.clone(), search.clone());
    assert_eq!(settings.indices, Indices::default());
    assert_eq!(settings.templates, "templates.xml");
    assert_eq!(settings.data, data);
    let custom = Indices { pages: "p".to_owned(), templates: "t".to_owned() };
    let settings =
        Settings::with_defaults(data, Some(custom.clone()), Some("x".to_owned()), anchors, search);
    assert_eq!(settings.indices, custom);
    assert_eq!(settings.templates, "x");
}

#[test]
fn documents_and_timers() {
    let doc = Doc::new("Persuasion");
    assert_eq!(doc.id, "Persuasion");
    assert!(doc.anchor.is_empty());
    assert_eq!(done_message_of(0), "Done in 0 seconds");
    assert_eq!(done_message_of(75), "Done in 75 seconds");
    let mut timer = Timer::new();
    let message = timer.finish();
    assert!(message.starts_with("Done in ") && message.ends_with(" seconds"));
    timer.reset();
}

#[test]
fn the_index_is_committed_every_ten_thousand_pages() {
    assert_eq!(COMMIT_EVERY, 10_000);
    assert!(!commit_due(0));
    assert!(!commit_due(1));
    assert!(!commit_due(9_999));
    assert!(commit_due(10_000));
    assert!(!commit_due(10_001));
    assert!(commit_due(20_000));
    assert!(commit_due(1_230_000));
}
