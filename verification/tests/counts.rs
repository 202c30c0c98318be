use fst::IntoStreamer;
use qp_trie::wrapper::BString;
use qp_trie::Trie;
use wikitools::anchor::Anchor;
use wikitools::anchor_counts::{
    add_keys, anchor_key, can_fold, count_anchors, count_line_of, count_lines, flat_key_of,
    flat_keys, fold_counts, format_anchor, is_counted_token, is_counted_tsv_line, room_for,
    try_count_anchors, try_count_lines, try_fold, tsv_line_fields, tsv_line_key, tsv_raw_fields,
    write_anchor_counts, TrieBuilderFlat,
};
use wikitools::fst_store::{build_fst_from_anchors, escape, widened_entries, WikiAnchors};
use wikitools::nested_counts::{
    add_link, add_links, count_lines_nested, link_pairs, nested_room_for, surface_forms_of,
    try_count_lines_nested, TrieBuilderNested,
};
use wikitools::surface_form::{SurfaceForm, SurfaceFormStoreError};
use wikitools::trie::add_count;

fn flat(entries: &[(&str, u32)]) -> Trie<BString, u32> {
    let mut trie = Trie::new();
    for (k, v) in entries {
        trie.insert_str(*k, *v);
    }
    trie
}

fn sorted(trie: &Trie<BString, u32>) -> Vec<(String, u32)> {
    let mut v: Vec<(String, u32)> = trie.iter().map(|(k, c)| (k.as_str().to_owned(), *c)).collect();
    v.sort();
    v
}

fn owned(entries: &[(&str, u32)]) -> Vec<(String, u32)> {
    entries.iter().map(|(k, v)| (k.to_string(), *v)).collect()
}

const DUMP: &str = r#"
<page><title>A</title><text>[[Paris]] and [[ Paris ]] and [[Paris, Texas|Paris]] [[:x]] [[User talk:y]]</text></page>
<page><title>File:B</title><text>[[Hidden]]</text></page>
<page><title>C</title><text>[[paris|PARIS]] ==References== [[Rome]] [[Category:Z]]</text></page>
"#;

#[test]
fn keys_of_the_flat_form() {
    assert_eq!(flat_key_of("paris", "Paris"), "paris\tParis");
    assert_eq!(
        format_anchor(Anchor::Direct(" Grand Paris ".to_owned())),
        ("grand paris".to_owned(), "Grand Paris".to_owned())
    );
    assert_eq!(
        format_anchor(Anchor::Label { surface: "ÉCOLE".to_owned(), page: "School ".to_owned() }),
        ("école".to_owned(), "School".to_owned())
    );
    assert_eq!(anchor_key(&Anchor::Direct("Paris".to_owned())), "paris\tParis");
    assert_eq!(
        flat_keys("[[Paris]] x [[A|The B]] [[:c]] [[<d]] [[a User talk:b]] [[File talk:x]] [[ ]] [[É]]"),
        vec!["paris\tParis", "the b\tA", "é\tÉ"]
    );
    assert!(is_counted_token(&"Paris".chars().collect()));
    assert!(!is_counted_token(&":Paris".chars().collect()));
    assert!(!is_counted_token(&"<Paris".chars().collect()));
    assert!(!is_counted_token(&"x File talk:y".chars().collect()));
}

#[test]
fn counting_adds_one_for_each_key() {
    let mut trie = flat(&[("a\tA", 3)]);
    add_keys(&mut trie, &vec!["a\tA".to_owned(), "b\tB".to_owned(), "a\tA".to_owned()]);
    assert_eq!(sorted(&trie), owned(&[("a\tA", 5), ("b\tB", 1)]));
    add_count(&mut trie, "b\tB", 10);
    add_count(&mut trie, "c\tC", 2);
    assert_eq!(sorted(&trie), owned(&[("a\tA", 5), ("b\tB", 11), ("c\tC", 2)]));
    let mut trie = Trie::new();
    count_anchors(
        &mut trie,
        &vec![
            Anchor::Direct("Paris".to_owned()),
            Anchor::Label { surface: "PARIS".to_owned(), page: "Paris".to_owned() },
            Anchor::Label { surface: "city".to_owned(), page: "Paris".to_owned() },
        ],
    );
    assert_eq!(sorted(&trie), owned(&[("city\tParis", 1), ("paris\tParis", 2)]));
}

#[test]
fn extraction_counts_every_page() {
    let trie = TrieBuilderFlat::extract(DUMP).unwrap();
    assert_eq!(
        sorted(&trie),
        owned(&[
            ("paris\tParis", 2),
            ("paris\tParis, Texas", 1),
            ("paris\tparis", 1),
            ("rome\tRome", 1),
        ])
    );
    assert_eq!(sorted(&TrieBuilderFlat::extract("").unwrap()), vec![]);
}

#[test]
fn folding_adds_counts() {
    let mut into = flat(&[("a", 1), ("b", 2)]);
    TrieBuilderFlat::fold(&mut into, flat(&[("b", 3), ("c", 4)]));
    assert_eq!(sorted(&into), owned(&[("a", 1), ("b", 5), ("c", 4)]));
    let a = flat(&[("a", 1), ("b", 2)]);
    let b = flat(&[("b", 3), ("c", 4)]);
    let mut ab = a.clone();
    fold_counts(&mut ab, &b);
    let mut ba = b.clone();
    fold_counts(&mut ba, &a);
    assert_eq!(sorted(&ab), sorted(&ba));
    let c = flat(&[("a", 7), ("c", 1)]);
    let mut left = ab.clone();
    fold_counts(&mut left, &c);
    let mut bc = b.clone();
    fold_counts(&mut bc, &c);
    let mut right = a.clone();
    fold_counts(&mut right, &bc);
    assert_eq!(sorted(&left), sorted(&right));
}

#[test]
fn folding_refuses_sums_that_do_not_fit() {
    let mut into = flat(&[("a", u32::MAX - 1), ("b", 2)]);
    assert!(can_fold(&into, &flat(&[("a", 1)])));
    assert!(!can_fold(&into, &flat(&[("b", 1), ("a", 2)])));
    assert!(!try_fold(&mut into, &flat(&[("b", 1), ("a", 2)])));
    assert_eq!(sorted(&into), owned(&[("a", u32::MAX - 1), ("b", 2)]));
    assert!(try_fold(&mut into, &flat(&[("b", 1), ("a", 1)])));
    assert_eq!(sorted(&into), owned(&[("a", u32::MAX), ("b", 3)]));
}

#[test]
fn lines_of_a_file_of_links() {
    assert_eq!(tsv_line_key("12\tTitle\tThe Surface \t Target"), "the surface\tTarget");
    assert_eq!(tsv_line_key("Surface\tTarget"), "surface\tTarget");
    assert_eq!(tsv_line_key("Target"), "\tTarget");
    assert_eq!(tsv_line_key(""), "\t");
    assert_eq!(tsv_line_key("a\t"), "a\t");
    let mut trie = Trie::new();
    count_lines(
        &mut trie,
        &vec!["1\tT\tParis\tParis".to_owned(), "2\tU\tPARIS\tParis".to_owned(), "x".to_owned()],
    );
    assert_eq!(sorted(&trie), owned(&[("\tx", 1), ("paris\tParis", 2)]));
}

#[test]
fn lines_of_a_file_of_links_are_filtered_like_links() {
    let raw = tsv_raw_fields("1\tT\t Surface\t Page ");
    assert_eq!(raw, (" Surface".chars().collect(), " Page ".chars().collect()));
    assert_eq!(tsv_raw_fields("Page"), (vec![], "Page".chars().collect()));
    assert!(is_counted_tsv_line("1\tT\tSurface\tPage"));
    assert!(!is_counted_tsv_line("1\tT\tSurface\t:Category:Page"));
    assert!(!is_counted_tsv_line("1\tT\tSurface\t<Page"));
    assert!(!is_counted_tsv_line("1\tT\tSurface\tUser talk:Someone"));
    assert!(!is_counted_tsv_line("1\tT\tsee File talk:x\tPage"));
    assert!(is_counted_tsv_line("1\tT\t:surface\tPage"));
    assert!(is_counted_tsv_line("1\tT\tuser talk:x\tPage"));
    let mut trie = Trie::new();
    count_lines(
        &mut trie,
        &vec![
            "1\tT\tParis\tParis".to_owned(),
            "2\tU\tx\t:Paris".to_owned(),
            "3\tV\tUser talk:y\tParis".to_owned(),
            "4\tW\tparis\tParis".to_owned(),
        ],
    );
    assert_eq!(sorted(&trie), owned(&[("paris\tParis", 2)]));
}

#[test]
fn counts_above_one_are_written() {
    assert_eq!(count_line_of("paris\tParis", 12), "paris\tParis\t12\n");
    let mut lines = write_anchor_counts(&flat(&[("a\tA", 1), ("b\tB", 2), ("c\tC", 30)]));
    lines.sort();
    assert_eq!(lines, vec!["b\tB\t2\n", "c\tC\t30\n"]);
    assert_eq!(write_anchor_counts(&Trie::new()).len(), 0);
}

#[test]
fn the_map_is_written_in_the_order_of_its_keys() {
    let trie = flat(&[("eu\tEuropean_Union", 900), ("eu\tEu_(letter)", 10), ("é\tx", 2), ("a\tb", 1), ("eu", 5)]);
    let bytes = build_fst_from_anchors(&trie).unwrap();
    let map = fst::Map::from_bytes(bytes.clone()).unwrap();
    let all = map.into_stream().into_str_vec().unwrap();
    let keys: Vec<&str> = all.iter().map(|(k, _)| k.as_str()).collect();
    assert_eq!(keys, vec!["a\tb", "eu", "eu\tEu_(letter)", "eu\tEuropean_Union", "é\tx"]);
    assert_eq!(all[3].1, 900);
    let mut expected = keys.clone();
    expected.sort();
    assert_eq!(keys, expected);
    assert_eq!(build_fst_from_anchors(&trie).unwrap(), bytes);
    assert!(build_fst_from_anchors(&Trie::new()).is_ok());
    let mut wide = widened_entries(&trie);
    wide.sort();
    assert_eq!(wide[0], ("a\tb".to_owned(), 1u64));
    assert_eq!(wide.len(), 5);
}

#[test]
fn surface_forms_are_read_from_the_map() {
    let trie = flat(&[("eu\tEuropean_Union", 900), ("eu\tEu_(letter)", 10), ("eux\tx", 2), ("e\tb", 1)]);
    let anchors = WikiAnchors::new(build_fst_from_anchors(&trie).unwrap()).unwrap();
    let eu = anchors.get("eu").unwrap().unwrap();
    assert_eq!(eu.text, "eu");
    assert_eq!(
        eu.anchors,
        vec![("Eu_(letter)".to_owned(), 10), ("European_Union".to_owned(), 900)]
    );
    assert_eq!(eu.wiki_occurrences(), 910);
    assert_eq!(anchors.get("zz"), Ok(None));
    assert_eq!(anchors.get("e").unwrap().unwrap().anchors, vec![("b".to_owned(), 1)]);
    assert_eq!(anchors.get("(eu"), Ok(None));
    assert_eq!(anchors.get("e."), Ok(None));
    assert_eq!(anchors.get("eu.*"), Ok(None));
}

#[test]
fn a_surface_is_looked_up_as_it_is_written() {
    let trie = flat(&[("abc\tx", 3), ("a.c\ty", 4), ("a(b\tz", 5), ("a\\b\tw", 6)]);
    let anchors = WikiAnchors::from_counts(&trie).unwrap();
    assert_eq!(anchors.get("a.c").unwrap().unwrap().anchors, vec![("y".to_owned(), 4)]);
    assert_eq!(anchors.get("abc").unwrap().unwrap().anchors, vec![("x".to_owned(), 3)]);
    assert_eq!(anchors.get("a(b").unwrap().unwrap().anchors, vec![("z".to_owned(), 5)]);
    assert_eq!(anchors.get("a\\b").unwrap().unwrap().anchors, vec![("w".to_owned(), 6)]);
    assert_eq!(anchors.get("a.*"), Ok(None));
    assert_eq!(escape("a.c"), "a\\.c");
    assert_eq!(escape("\\.+*?()|[]{}^$#"), "\\\\\\.\\+\\*\\?\\(\\)\\|\\[\\]\\{\\}\\^\\$\\#");
    assert_eq!(escape("plain text-&~"), "plain text-&~");
    assert_eq!(escape(""), "");
}

#[test]
fn found_entries_become_a_surface_form() {
    let found = Ok(vec![("eu\tA".to_owned(), 1u64), ("eu\tB\tC".to_owned(), 2)]);
    let sf = WikiAnchors::surface_form_of("eu", found).unwrap().unwrap();
    assert_eq!(sf, SurfaceForm::new("eu", vec![("A".to_owned(), 1), ("B\tC".to_owned(), 2)]));
    assert_eq!(
        WikiAnchors::surface_form_of("eu", Err("bad".to_owned())),
        Err(SurfaceFormStoreError::Generic("bad".to_owned()))
    );
    assert!(WikiAnchors::surface_form_of("eu", Ok(vec![("eu".to_owned(), 1)])).is_err());
    let big = Ok(vec![("a\tb".to_owned(), u64::MAX), ("a\tc".to_owned(), 1)]);
    assert!(WikiAnchors::surface_form_of("a", big).is_err());
    assert_eq!(WikiAnchors::surface_form_of("a", Ok(vec![])), Ok(None));
}

fn nested(entries: &[(&str, &[(&str, u32)])]) -> Trie<BString, Trie<BString, u32>> {
    let mut trie = Trie::new();
    for (k, inner) in entries {
        trie.insert_str(*k, flat(inner));
    }
    trie
}

fn sorted_nested(trie: &Trie<BString, Trie<BString, u32>>) -> Vec<(String, Vec<(String, u32)>)> {
    let mut v: Vec<(String, Vec<(String, u32)>)> =
        trie.iter().map(|(k, inner)| (k.as_str().to_owned(), sorted(inner))).collect();
    v.sort();
    v
}

#[test]
fn the_nested_form_counts_by_surface_and_page() {
    assert_eq!(
        link_pairs("[[Paris]] [[A|The B]] [[:c]] [[ ]]"),
        vec![
            ("paris".to_owned(), "Paris".to_owned()),
            ("the b".to_owned(), "A".to_owned()),
            (":c".to_owned(), ":c".to_owned()),
        ]
    );
    let mut trie = Trie::new();
    add_link(&mut trie, "paris", "Paris");
    add_link(&mut trie, "paris", "Paris, Texas");
    add_links(
        &mut trie,
        &vec![("paris".to_owned(), "Paris".to_owned()), ("rome".to_owned(), "Rome".to_owned())],
    );
    assert_eq!(
        sorted_nested(&trie),
        vec![
            ("paris".to_owned(), owned(&[("Paris", 2), ("Paris, Texas", 1)])),
            ("rome".to_owned(), owned(&[("Rome", 1)])),
        ]
    );
    let extracted = TrieBuilderNested::extract(DUMP).unwrap();
    assert_eq!(
        sorted_nested(&extracted),
        vec![
            (":x".to_owned(), owned(&[(":x", 1)])),
            ("paris".to_owned(), owned(&[("Paris", 2), ("Paris, Texas", 1), ("paris", 1)])),
            ("rome".to_owned(), owned(&[("Rome", 1)])),
            ("user talk:y".to_owned(), owned(&[("User talk:y", 1)])),
        ]
    );
}

#[test]
fn the_nested_form_folds_page_by_page() {
    let mut into = nested(&[("a", &[("x", 1), ("y", 2)]), ("b", &[("z", 3)])]);
    TrieBuilderNested::fold(&mut into, nested(&[("a", &[("y", 5), ("w", 1)]), ("c", &[("v", 9)])]));
    assert_eq!(
        sorted_nested(&into),
        vec![
            ("a".to_owned(), owned(&[("w", 1), ("x", 1), ("y", 7)])),
            ("b".to_owned(), owned(&[("z", 3)])),
            ("c".to_owned(), owned(&[("v", 9)])),
        ]
    );
}

#[test]
fn surface_forms_of_the_nested_form() {
    let trie = nested(&[("eu", &[("European_Union", 900), ("Eu_(letter)", 10)]), ("x", &[])]);
    let mut forms = surface_forms_of(trie).unwrap();
    forms.sort_by(|a, b| a.text.cmp(&b.text));
    assert_eq!(forms.len(), 2);
    assert_eq!(forms[0].text, "eu");
    assert_eq!(forms[0].wiki_occurrences(), 910);
    let mut anchors = forms[0].anchors.clone();
    anchors.sort();
    assert_eq!(anchors, vec![("Eu_(letter)".to_owned(), 10), ("European_Union".to_owned(), 900)]);
    assert_eq!(forms[1].text, "x");
    assert_eq!(forms[1].wiki_occurrences(), 0);
}

#[test]
fn lines_of_a_file_of_links_in_the_nested_form() {
    assert_eq!(
        tsv_line_fields("12\tTitle\tThe Surface \t Target"),
        ("the surface".to_owned(), "Target".to_owned())
    );
    let mut trie = Trie::new();
    count_lines_nested(
        &mut trie,
        &vec!["1\tT\tParis\tParis".to_owned(), "2\tU\tPARIS\tParis".to_owned(), "x".to_owned()],
    );
    assert_eq!(
        sorted_nested(&trie),
        vec![
            ("".to_owned(), owned(&[("x", 1)])),
            ("paris".to_owned(), owned(&[("Paris", 2)])),
        ]
    );
}

#[test]
fn the_links_of_given_pages_are_counted() {
    let pages = vec!["[[Paris]] [[:x]] [[a|Paris]]".to_owned(), "none".to_owned(), "[[paris|PARIS]]".to_owned()];
    let counted = TrieBuilderFlat::count_pages(&pages).unwrap();
    assert_eq!(sorted(&counted), owned(&[("paris\tParis", 1), ("paris\ta", 1), ("paris\tparis", 1)]));
    assert_eq!(sorted(&TrieBuilderFlat::count_pages(&vec![]).unwrap()), vec![]);
    let nested = TrieBuilderNested::count_pages(&pages).unwrap();
    assert_eq!(
        sorted_nested(&nested),
        vec![
            (":x".to_owned(), owned(&[(":x", 1)])),
            ("paris".to_owned(), owned(&[("Paris", 1), ("a", 1), ("paris", 1)])),
        ]
    );
    assert_eq!(
        sorted(&TrieBuilderFlat::extract(DUMP).unwrap()),
        sorted(
            &TrieBuilderFlat::count_pages(&vec![
                "[[Paris]] and [[ Paris ]] and [[Paris, Texas|Paris]] [[:x]] [[User talk:y]]".to_owned(),
                "[[paris|PARIS]] ==References== [[Rome]] [[Category:Z]]".to_owned(),
            ])
            .unwrap()
        )
    );
}

#[test]
fn counting_is_refused_where_a_count_would_not_fit() {
    let mut trie = flat(&[("a\tb", u32::MAX - 1), ("c\td", 2)]);
    assert!(room_for(&trie, 1));
    assert!(!room_for(&trie, 2));
    assert!(room_for(&Trie::new(), u32::MAX as usize));
    assert!(!room_for(&Trie::new(), u32::MAX as usize + 1));
    let two = vec!["x\ta\tb".to_owned(), "x\tc\td".to_owned()];
    assert!(!try_count_lines(&mut trie, &two));
    assert_eq!(sorted(&trie), owned(&[("a\tb", u32::MAX - 1), ("c\td", 2)]));
    let one = vec!["x\tc\td".to_owned()];
    assert!(try_count_lines(&mut trie, &one));
    assert_eq!(sorted(&trie), owned(&[("a\tb", u32::MAX - 1), ("c\td", 3)]));
    let mut full = flat(&[("k", u32::MAX)]);
    let anchors = vec![Anchor::Direct("Paris".to_owned())];
    assert!(!try_count_anchors(&mut full, &anchors));
    assert_eq!(sorted(&full), owned(&[("k", u32::MAX)]));
    assert!(try_count_anchors(&mut full, &vec![]));
    let mut fresh = Trie::new();
    assert!(try_count_anchors(&mut fresh, &anchors));
    let mut direct = Trie::new();
    count_anchors(&mut direct, &anchors);
    assert_eq!(sorted(&fresh), sorted(&direct));
}

#[test]
fn the_nested_form_refuses_what_does_not_fit() {
    let start = || nested(&[("a", &[("x", u32::MAX - 1), ("y", 2)]), ("b", &[("z", 3)])]);
    let mut into = start();
    assert!(nested_room_for(&mut into, 1));
    assert_eq!(sorted_nested(&into), sorted_nested(&start()));
    assert!(!nested_room_for(&mut into, 2));
    assert_eq!(sorted_nested(&into), sorted_nested(&start()));
    assert!(!nested_room_for(&mut Trie::new(), u32::MAX as usize + 1));
    assert!(nested_room_for(&mut Trie::new(), u32::MAX as usize));
    assert!(!TrieBuilderNested::try_fold(&mut into, nested(&[("b", &[("z", 1)]), ("a", &[("x", 2)])])));
    assert_eq!(sorted_nested(&into), sorted_nested(&start()));
    assert!(TrieBuilderNested::try_fold(&mut into, nested(&[("a", &[("x", 1), ("w", 4)]), ("c", &[("v", 9)])])));
    assert_eq!(
        sorted_nested(&into),
        vec![
            ("a".to_owned(), owned(&[("w", 4), ("x", u32::MAX), ("y", 2)])),
            ("b".to_owned(), owned(&[("z", 3)])),
            ("c".to_owned(), owned(&[("v", 9)])),
        ]
    );
    let lines = vec!["s\ta\tx".to_owned(), "s\tb\tz".to_owned()];
    assert!(!try_count_lines_nested(&mut into, &lines));
    let mut small = nested(&[("b", &[("z", 3)])]);
    assert!(try_count_lines_nested(&mut small, &lines));
    let mut direct = nested(&[("b", &[("z", 3)])]);
    count_lines_nested(&mut direct, &lines);
    assert_eq!(sorted_nested(&small), sorted_nested(&direct));
}
