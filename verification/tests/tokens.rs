use wikitools::find_indices::{FindIndices, IndicesOf};
use wikitools::siteinfo::SiteInfo;
use wikitools::text::{byte_offsets, char_len, char_position};
use wikitools::tokenizer::WikiTitleTokenizer;

#[test]
fn test_indices_of() {
    let idx = "abaabaaaababbbaaaababbaab".indices_of("b").collect();
    assert_eq!(idx, vec![1, 4, 9, 11, 12, 13, 18, 20, 21, 24]);
}

#[test]
fn indices_of_overlapping_and_empty_needles() {
    assert_eq!(FindIndices::new("aaaa", "aa").collect(), vec![0, 1, 2]);
    assert_eq!(FindIndices::new("ab", "").collect(), vec![0, 1, 2]);
    assert_eq!(FindIndices::new("", "").collect(), vec![0]);
    assert_eq!(FindIndices::new("ab", "abc").collect(), Vec::<usize>::new());
    assert_eq!(FindIndices::new("éaé", "é").collect(), vec![0, 3]);
    assert_eq!(FindIndices::new("é[[a]] ü[[b]]", "[[").collect(), vec![2, 10]);
    assert_eq!(FindIndices::new("\u{1F600}x\u{20AC}x", "x").collect(), vec![4, 8]);
    let mut it = FindIndices::new("xbxb", "b");
    assert_eq!(it.next(), Some(1));
    assert_eq!(it.next(), Some(3));
    assert_eq!(it.next(), None);
    assert_eq!(it.next(), None);
}

#[test]
fn test_siteinfo() {}

#[test]
fn site_info_starts_empty() {
    let info = SiteInfo::default();
    assert_eq!(info.base, "");
    assert!(info.known_namespaces.is_empty());
}

#[test]
fn test_tokenize_one() {
    let tokz = WikiTitleTokenizer;
    let mut stream = tokz.token_stream("Nicolas_Poussin");
    assert_eq!(stream.token().text, "");
    assert!(stream.advance());
    assert_eq!(stream.token().text, "Nicolas_Poussin");
    assert!(!stream.advance());
}

#[test]
fn test_tokenize_two() {
    let tokz = WikiTitleTokenizer;
    let mut stream = tokz.token_stream("Nicolas_Poussin The_Louvre");
    assert_eq!(stream.token().text, "");
    assert!(stream.advance());
    assert_eq!(stream.token().text, "Nicolas_Poussin");
    assert!(stream.advance());
    assert_eq!(stream.token().text, "The_Louvre");
    assert!(!stream.advance());
}

#[test]
fn test_tokenize_many() {
    let tokz = WikiTitleTokenizer;
    let input = &[
        "Nicolas_Poussin",
        "The_Louvre",
        "Orpheus_and_Eurydice",
        "The_Unattainable_Object_of_Desire",
        "Paris,_Texas",
        "The_Louvre_(song)",
        "Local_Newspaper's_(band)",
        "Joan_of_Arc",
    ];
    let input_str = input.join(" ");
    let mut stream = tokz.token_stream(&input_str);
    assert_eq!(stream.token().text, "");
    for token in input {
        assert!(stream.advance());
        assert_eq!(stream.token().text, *token);
    }
    assert!(!stream.advance());
}

#[test]
fn tokens_have_offsets_and_numbers() {
    let mut stream = WikiTitleTokenizer.token_stream("  (a_b)  c ");
    assert!(stream.advance());
    assert_eq!(stream.token().text, "a_b)");
    assert_eq!(stream.token().offset_from, 3);
    assert_eq!(stream.token().offset_to, 7);
    assert_eq!(stream.token().position, 0);
    assert!(stream.advance());
    assert_eq!(stream.token().text, "c");
    assert_eq!(stream.token().position, 1);
    assert!(!stream.advance());
    assert_eq!(stream.token().text, "");
    assert_eq!(stream.token().position, 2);
    stream.token_mut().position = 9;
    assert_eq!(stream.token().position, 9);
    assert_eq!(stream.search_token_end(), 11);
    let mut wide = WikiTitleTokenizer.token_stream("é Ünï_cödé z");
    assert!(wide.advance());
    assert_eq!((wide.token().offset_from, wide.token().offset_to), (0, 2));
    assert!(wide.advance());
    assert_eq!(wide.token().text, "Ünï_cödé");
    assert_eq!((wide.token().offset_from, wide.token().offset_to), (3, 15));
    assert_eq!("é Ünï_cödé z".get(3..15), Some("Ünï_cödé"));
    assert!(wide.advance());
    assert_eq!((wide.token().offset_from, wide.token().offset_to), (16, 17));
    assert_eq!(wide.search_token_end(), 17);
}

#[test]
fn positions_of_characters_in_bytes() {
    assert_eq!(byte_offsets(""), vec![0]);
    assert_eq!(byte_offsets("abc"), vec![0, 1, 2, 3]);
    assert_eq!(byte_offsets("é\u{20AC}\u{1F600}a"), vec![0, 2, 5, 9, 10]);
    assert_eq!(char_len('a'), 1);
    assert_eq!(char_len('\u{7f}'), 1);
    assert_eq!(char_len('\u{80}'), 2);
    assert_eq!(char_len('\u{7ff}'), 2);
    assert_eq!(char_len('\u{800}'), 3);
    assert_eq!(char_len('\u{ffff}'), 3);
    assert_eq!(char_len('\u{10000}'), 4);
    for c in ['a', 'é', '\u{20AC}', '\u{1F600}'] {
        assert_eq!(char_len(c), c.len_utf8());
    }
    let offsets = byte_offsets("éa");
    assert_eq!(char_position(&offsets, 0), Some(0));
    assert_eq!(char_position(&offsets, 1), None);
    assert_eq!(char_position(&offsets, 2), Some(1));
    assert_eq!(char_position(&offsets, 3), Some(2));
    assert_eq!(char_position(&offsets, 4), None);
}
