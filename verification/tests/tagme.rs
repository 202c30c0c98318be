use wikitools::ratio::Ratio;
use wikitools::relatedness::{coherence_divisor, relatedness_of, Relatedness};
use wikitools::surface_form::SurfaceForm;
use wikitools::tagme::params::TagMeParams;
use wikitools::tagme::query::{count_words, TagMeQuery};
use wikitools::tagme::query_text::{is_word, to_lower, words_of, Query};
use wikitools::tagme::stopwords::{is_stopword, stopwords_en};
use wikitools::tagme::tag_me::{Lookup, Mention, TagMe};

fn strings(items: &[&str]) -> Vec<String> {
    items.iter().map(|s| s.to_string()).collect()
}

fn mention(text: &str, num: u64, den: u64) -> Mention {
    Mention { text: text.to_owned(), link_probability: Ratio::new(num, den), entities: vec![] }
}

fn texts(mentions: &[Mention]) -> Vec<&str> {
    mentions.iter().map(|m| m.text.as_str()).collect()
}

#[test]
fn a_query_is_made_ready() {
    assert_eq!(Query::new(0, "The quick  brown-fox!!").text, "the quick brown fox");
    assert_eq!(Query::new(3, "  A\r\nB\tc9;;d ").text(), "a b c9 d");
    assert_eq!(Query::new(0, "").text, "");
    assert_eq!(Query::new(0, "?!").text, "");
    assert_eq!(Query::new(0, "Éa").text, "a");
    assert_eq!(Query::new(3, "x").id, 3);
    assert!(is_word('a') && is_word('Z') && is_word('0') && !is_word('_') && !is_word('é'));
    assert_eq!(to_lower('Q'), 'q');
    assert_eq!(to_lower('q'), 'q');
    assert_eq!(to_lower('1'), '1');
    assert_eq!(
        words_of(&"Ab, cD".chars().collect()),
        vec![vec!['a', 'b'], vec!['c', 'd']]
    );
}

#[test]
fn n_grams_by_length_and_position() {
    let query = Query::new(0, "The quick  brown-fox!!");
    assert_eq!(
        query.split_ngrams(2, 3),
        strings(&["the quick", "quick brown", "brown fox", "the quick brown", "quick brown fox"])
    );
    assert_eq!(query.split_ngrams(4, 9), strings(&["the quick brown fox"]));
    assert_eq!(query.split_ngrams(5, 9), strings(&[]));
    assert_eq!(query.split_ngrams(3, 2), strings(&[]));
    assert_eq!(query.split_ngrams(1, 1), strings(&["the", "quick", "brown", "fox"]));
    assert_eq!(query.split_ngrams(1, usize::MAX).len(), 10);
    assert_eq!(Query::new(0, "").split_ngrams(1, 3), strings(&[]));
}

#[test]
fn stop_words() {
    assert_eq!(stopwords_en().len(), 127);
    assert!(is_stopword("the"));
    assert!(is_stopword("i"));
    assert!(is_stopword("now"));
    assert!(!is_stopword("The"));
    assert!(!is_stopword("fox"));
    assert!(!is_stopword(""));
    assert!(TagMe::has_content_word("the quick"));
    assert!(!TagMe::has_content_word("of the"));
    assert!(!TagMe::has_content_word(""));
}

#[test]
fn phrases_that_are_looked_up() {
    let tagme = TagMe::with_params(TagMeParams::default().with_ngram_min(2).with_ngram_max(3));
    let query = Query::new(0, "the state of the art");
    assert_eq!(
        tagme.candidate_phrases(&query),
        strings(&["the state", "state of", "the art", "the state of", "state of the", "of the art"])
    );
    let tagme = TagMe::with_params(TagMeParams::default().with_ngram_min(0).with_ngram_max(1));
    assert_eq!(tagme.candidate_phrases(&query), strings(&["state", "art"]));
}

#[test]
fn default_thresholds() {
    let p = TagMeParams::default();
    assert_eq!(p.link_probability_threshold, Ratio::new(1, 1000));
    assert_eq!(p.candidate_mention_threshold, Ratio::new(2, 100));
    assert_eq!(p.k_th, Ratio::new(3, 10));
    assert_eq!(p.ngram_min, 2);
    assert_eq!(p.ngram_max, 6);
    assert_eq!(TagMe::new().params, p);
    let q = p
        .with_link_probability_threshold(Ratio::new(1, 2))
        .with_candidate_mention_threshold(Ratio::new(1, 3))
        .with_k_th(Ratio::new(1, 4))
        .with_ngram_min(1)
        .with_ngram_max(9);
    assert_eq!(
        q,
        TagMeParams {
            link_probability_threshold: Ratio::new(1, 2),
            candidate_mention_threshold: Ratio::new(1, 3),
            k_th: Ratio::new(1, 4),
            ngram_min: 1,
            ngram_max: 9,
        }
    );
    let mut tagme = TagMe::new();
    tagme.set_params(q);
    assert_eq!(tagme.params, q);
}

#[test]
fn link_probability() {
    let tagme = TagMe::new();
    let sf = SurfaceForm::new("eu", vec![("A".to_owned(), 30), ("B".to_owned(), 10)]);
    assert_eq!(tagme.get_link_probability(&sf, 0), Ratio::new(40, 40));
    assert_eq!(tagme.get_link_probability(&sf, 400), Ratio::new(40, 400));
    assert_eq!(tagme.get_link_probability(&sf, 40), Ratio::new(40, 40));
    assert_eq!(tagme.get_link_probability(&sf, 7), Ratio::new(40, 40));
}

#[test]
fn mentions_of_a_query() {
    let tagme = TagMe::new();
    let eu = SurfaceForm::new("eu", vec![("European_Union".to_owned(), 900), ("Eu_(letter)".to_owned(), 10)]);
    let rare = SurfaceForm::new("rare", vec![("X".to_owned(), 1)]);
    let common = SurfaceForm::new("common", vec![("Y".to_owned(), 2)]);
    let lookup = |ngram: &str, mention: Option<&SurfaceForm>, freq: u64| Lookup {
        ngram: ngram.to_owned(),
        mention: mention.cloned(),
        mention_freq: freq,
    };
    assert_eq!(tagme.mention_from(&lookup("none", None, 5)), None);
    assert_eq!(tagme.mention_from(&lookup("rare", Some(&rare), 5)), None);
    assert_eq!(tagme.mention_from(&lookup("common", Some(&common), 2001)), None);
    let unseen = tagme.mention_from(&lookup("common", Some(&common), 0)).unwrap();
    assert_eq!(unseen.link_probability, Ratio::new(2, 2));
    assert_eq!(tagme.mention_from(&lookup("rare", Some(&rare), 0)), None);
    let m = tagme.mention_from(&lookup("common", Some(&common), 2000)).unwrap();
    assert_eq!(m.link_probability, Ratio::new(2, 2000));
    assert_eq!(m.entities, vec![("Y".to_owned(), Ratio::new(2, 2))]);
    let found = tagme.entities_for_query(&vec![
        lookup("the eu", None, 3),
        lookup("eu", Some(&eu), 1000),
        lookup("rare", Some(&rare), 1),
        lookup("eu", Some(&common), 10),
        lookup("common", Some(&common), 10),
    ]);
    assert_eq!(texts(&found), vec!["eu", "common"]);
    assert_eq!(found[0].link_probability, Ratio::new(910, 1000));
    assert_eq!(found[0].entities, vec![("European_Union".to_owned(), Ratio::new(900, 910))]);
    assert!(TagMe::holds_text(&found, "eu"));
    assert!(!TagMe::holds_text(&found, "rare"));
}

fn scores(items: &[(&str, u64)]) -> Vec<(String, u64)> {
    items.iter().map(|(k, v)| (k.to_string(), *v)).collect()
}

#[test]
fn the_first_bands_of_scores() {
    let tagme = TagMe::new();
    assert_eq!(tagme.get_top_k(&scores(&[("a", 5)])), strings(&["a"]));
    assert_eq!(tagme.get_top_k(&scores(&[])), strings(&[]));
    assert_eq!(
        tagme.get_top_k(&scores(&[("a", 5), ("b", 9), ("c", 9), ("d", 1)])),
        strings(&["b", "c"])
    );
    let ten = scores(&[("a", 1), ("b", 9), ("c", 3), ("d", 9), ("e", 7), ("f", 3), ("g", 0), ("h", 7), ("i", 2), ("j", 4)]);
    assert_eq!(tagme.get_top_k(&ten), strings(&["b", "d", "e", "h", "j"]));
    assert_eq!(
        TagMe::sorted_by_score(&ten),
        scores(&[("b", 9), ("d", 9), ("e", 7), ("h", 7), ("j", 4), ("c", 3), ("f", 3), ("i", 2), ("a", 1), ("g", 0)])
    );
    assert_eq!(tagme.band_limit_of(0), 1);
    assert_eq!(tagme.band_limit_of(1), 1);
    assert_eq!(tagme.band_limit_of(4), 1);
    assert_eq!(tagme.band_limit_of(5), 2);
    assert_eq!(tagme.band_limit_of(10), 3);
    let half = TagMe::with_params(TagMeParams::default().with_k_th(Ratio::new(1, 2)));
    assert_eq!(half.band_limit_of(3), 2);
    assert_eq!(half.band_limit_of(usize::MAX), (usize::MAX as u128 + 1) / 2);
    let all = TagMe::with_params(TagMeParams::default().with_k_th(Ratio::new(u64::MAX, 1)));
    assert_eq!(all.get_top_k(&ten).len(), 10);
}

#[test]
fn shadowed_mentions_are_dropped() {
    let mut query = TagMeQuery::new("New York City hall");
    assert_eq!(query.query_text().text, "new york city hall");
    let mentions = vec![
        mention("new york", 1, 2),
        mention("york", 1, 10),
        mention("new york city", 3, 4),
        mention("city hall", 9, 10),
        mention("york city", 3, 4),
        mention("hall", 1, 5),
    ];
    let kept = query.parse(mentions.clone());
    assert_eq!(texts(&kept), vec!["new york city", "city hall", "york city"]);
    assert_eq!(query.link_probability_of("york"), Ratio::new(1, 10));
    assert_eq!(query.link_probability_of("unknown"), Ratio::new(1, 1));
    let again = query.parse(kept.clone());
    assert_eq!(again, kept);
    assert_eq!(query.link_probability_of("york"), Ratio::new(1, 1));
}

#[test]
fn ties_and_mentions_of_equal_length() {
    let mut query = TagMeQuery::new("");
    let tie = vec![mention("york", 1, 2), mention("new york", 2, 4)];
    assert_eq!(texts(&query.parse(tie)), vec!["york", "new york"]);
    let same_length = vec![mention("ab cd", 1, 4), mention("xab cd", 1, 2)];
    assert_eq!(texts(&query.parse(same_length)), vec!["ab cd", "xab cd"]);
    let longer = vec![mention("ab cd", 1, 4), mention("xab cd e", 1, 2)];
    assert_eq!(texts(&query.parse(longer)), vec!["xab cd e"]);
    let earlier = vec![mention("xab cd", 1, 2), mention("ab cd", 1, 4)];
    assert_eq!(texts(&query.parse(earlier)), vec!["xab cd", "ab cd"]);
    let chain = vec![mention("a", 1, 4), mention("a b", 1, 3), mention("a b c", 1, 2)];
    let once = query.parse(chain);
    assert_eq!(texts(&once), vec!["a b c"]);
    assert_eq!(query.parse(once.clone()), once);
    assert_eq!(query.parse(vec![]), vec![]);
    assert_eq!(count_words("a b  c"), 4);
    assert_eq!(count_words(""), 1);
}

#[test]
fn the_page_with_the_greatest_commonness() {
    let top = vec![
        ("A".to_owned(), Ratio::new(1, 4)),
        ("B".to_owned(), Ratio::new(2, 4)),
        ("C".to_owned(), Ratio::new(1, 2)),
        ("D".to_owned(), Ratio::new(1, 3)),
    ];
    assert_eq!(TagMeQuery::pick_best_entity(&top), "C");
    assert_eq!(TagMeQuery::pick_best_entity(&vec![]), "[-ERROR-]");
    assert_eq!(TagMeQuery::pick_best_entity(&vec![("Z".to_owned(), Ratio::new(0, 5))]), "Z");
    assert_eq!(TagMeQuery::pick_best_entity(&vec![("N".to_owned(), Ratio::new(0, 0))]), "[-ERROR-]");
}

#[test]
fn pairs_of_pages() {
    let names = strings(&["New York", "Paris", "New_York", "Berlin", "Paris"]);
    let normal = TagMeQuery::normalized_entities(&names);
    assert_eq!(normal, strings(&["Berlin", "New_York", "Paris"]));
    assert_eq!(
        TagMeQuery::entity_pairs(&normal),
        vec![
            ("Berlin".to_owned(), "New_York".to_owned()),
            ("Berlin".to_owned(), "Paris".to_owned()),
            ("New_York".to_owned(), "Paris".to_owned()),
        ]
    );
    assert_eq!(TagMeQuery::entity_pairs(&strings(&["a"])), vec![]);
    assert_eq!(TagMeQuery::entity_pairs(&strings(&[])), vec![]);
    assert_eq!(TagMeQuery::normalized_entities(&strings(&["b a", "a"])), strings(&["a", "b_a"]));
    assert_eq!(TagMeQuery::normalized_entities(&strings(&["é", "z", "Z"])), strings(&["Z", "z", "é"]));
}

#[test]
fn relatedness_is_decided_from_counts() {
    assert_eq!(relatedness_of("Paris", "Paris", 0, 0, 0, 2), Relatedness::Same);
    assert_eq!(relatedness_of("Paris", "Texas", 2, 0, 0, 2), Relatedness::Unrelated);
    assert_eq!(relatedness_of("Paris", "Texas", 2, 1, 0, 2), Relatedness::Unrelated);
    assert_eq!(relatedness_of("Paris", "Texas", 2, 2, 2, 2), Relatedness::Unrelated);
    assert_eq!(relatedness_of("Paris", "Texas", 3, 2, 2, 2), Relatedness::Unrelated);
    assert_eq!(relatedness_of("Paris", "Texas", 5, 9, 1, 4), Relatedness::Unrelated);
    assert_eq!(
        relatedness_of("Paris", "Texas", 2, 1, 1, 2),
        Relatedness::Measured { hi: 2, lo: 1, both: 1, total: 2 }
    );
    assert_eq!(
        relatedness_of("Texas", "Paris", 1, 2, 1, 2),
        relatedness_of("Paris", "Texas", 2, 1, 1, 2)
    );
    if let Relatedness::Measured { hi, lo, both, total } = relatedness_of("Paris", "Texas", 2, 1, 1, 2) {
        let r = 1.0 - ((hi as f64).ln() - (both as f64).ln()) / ((total as f64).ln() - (lo as f64).ln());
        assert_eq!(r.max(0.0), 0.0);
    }
    assert_eq!(coherence_divisor(0), 1);
    assert_eq!(coherence_divisor(1), 1);
    assert_eq!(coherence_divisor(2), 1);
    assert_eq!(coherence_divisor(5), 4);
}
