use wikitools::ratio::Ratio;
use wikitools::store::{batches, CHUNK_FACTOR};
use wikitools::surface_form::{SurfaceForm, SurfaceFormStoreError};

fn eu() -> SurfaceForm {
    SurfaceForm::new("eu", vec![("European_Union".to_owned(), 900), ("Eu_(letter)".to_owned(), 10)])
}

#[test]
fn occurrences_are_the_sum_of_the_counts() {
    let sf = eu();
    assert_eq!(sf.text, "eu");
    assert_eq!(sf.wiki_occurrences(), 910);
    assert_eq!(sf.len(), 2);
    assert!(!sf.is_empty());
    assert_eq!(sf.text_bytes(), b"eu");
    let empty = SurfaceForm::from_string("x".to_owned(), vec![]);
    assert_eq!(empty.wiki_occurrences(), 0);
    assert!(empty.is_empty());
    assert_eq!(SurfaceForm::sum_of(&vec![("a".to_owned(), u64::MAX), ("b".to_owned(), 0)]), Some(u64::MAX));
    assert_eq!(SurfaceForm::sum_of(&vec![("a".to_owned(), u64::MAX), ("b".to_owned(), 1)]), None);
    assert_eq!(SurfaceForm::sum_of(&vec![]), Some(0));
}

#[test]
fn adding_a_page_adds_its_count() {
    let mut sf = eu();
    sf.add_anchor("Europium", 5);
    assert_eq!(sf.len(), 3);
    assert_eq!(sf.anchors[2], ("Europium".to_owned(), 5));
    assert_eq!(sf.wiki_occurrences(), 915);
    assert_eq!(sf.wiki_occurrences(), sf.anchors.iter().map(|a| a.1).sum::<u64>());
}

#[test]
fn matches_above_the_threshold() {
    let sf = eu();
    let matches = sf.get_wiki_matches(Ratio::new(2, 100));
    assert_eq!(matches, vec![("European_Union".to_owned(), Ratio::new(900, 910))]);
    let share = matches[0].1.num as f64 / matches[0].1.den as f64;
    assert!((share - 0.989).abs() < 0.001);
    assert_eq!(sf.get_all_wiki_matches().len(), 2);
    assert_eq!(sf.get_wiki_matches(Ratio::new(1, 91)).len(), 2);
    assert_eq!(sf.get_wiki_matches(Ratio::new(901, 910)).len(), 0);
    assert_eq!(sf.calculate_commonness("Eu_(letter)"), Ratio::new(10, 910));
    assert_eq!(sf.calculate_commonness("Europium"), Ratio::new(0, 1));
    let none = SurfaceForm::new("x", vec![("a".to_owned(), 0)]);
    assert_eq!(none.get_all_wiki_matches().len(), 0);
}

#[test]
fn pages_of_paired_matches() {
    let stream = vec![("eu\tEuropean_Union".to_owned(), 900), ("eu\tEu\t2".to_owned(), 10)];
    assert_eq!(
        SurfaceForm::paired_matches_to_vec(stream.clone()),
        vec![("European_Union".to_owned(), 900), ("Eu\t2".to_owned(), 10)]
    );
    let sf = SurfaceForm::from_paired_matches("eu", stream);
    assert_eq!(sf.text, "eu");
    assert_eq!(sf.wiki_occurrences(), 910);
}

#[test]
fn fractions_compare_without_rounding() {
    assert!(Ratio::new(1, 3).ge(&Ratio::new(333, 1000)));
    assert!(!Ratio::new(1, 3).ge(&Ratio::new(334, 1000)));
    assert!(Ratio::new(2, 4).ge(&Ratio::new(1, 2)));
    assert!(Ratio::new(1, 0).ge(&Ratio::new(5, 1)));
    assert!(!Ratio::new(0, 0).ge(&Ratio::new(0, 1)));
    assert!(Ratio::new(1, 3).lt(&Ratio::new(334, 1000)));
    assert!(!Ratio::new(1, 2).lt(&Ratio::new(2, 4)));
    assert!(Ratio::new(u64::MAX - 1, u64::MAX).lt(&Ratio::new(u64::MAX, u64::MAX)));
    assert!(Ratio::new(u64::MAX, u64::MAX).ge(&Ratio::new(u64::MAX, u64::MAX)));
}

#[test]
fn messages_of_errors() {
    assert_eq!(SurfaceFormStoreError::Generic("x".to_owned()).to_string(), "Error: x");
    assert_eq!(SurfaceFormStoreError::PutError("x".to_owned()).to_string(), "Put error: x");
    assert_eq!(SurfaceFormStoreError::GetError("x".to_owned()).to_string(), "Get error: x");
    assert_eq!(SurfaceFormStoreError::Unknown.to_string(), "Unknown error");
    assert_eq!(SurfaceFormStoreError::NoSuchKey.to_string(), "Unknown error");
    assert_eq!(SurfaceFormStoreError::SerializeError("x".to_owned()).to_string(), "Unknown error");
}

#[test]
fn records_go_in_batches() {
    assert_eq!(CHUNK_FACTOR, 20000);
    assert_eq!(batches(0, 3), vec![]);
    assert_eq!(batches(2, 3), vec![(0, 2)]);
    assert_eq!(batches(3, 3), vec![(0, 3)]);
    assert_eq!(batches(7, 3), vec![(0, 3), (3, 6), (6, 7)]);
    assert_eq!(batches(50000, CHUNK_FACTOR), vec![(0, 20000), (20000, 40000), (40000, 50000)]);
    assert_eq!(batches(usize::MAX, usize::MAX - 1), vec![(0, usize::MAX - 1), (usize::MAX - 1, usize::MAX)]);
}
