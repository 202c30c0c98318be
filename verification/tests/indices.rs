use std::collections::HashMap;
use wikitools::indices::{
    add_page, build_indices_map, find_template_indices, index_line_of, is_template_line,
    parse_kept_line, parse_source_line, parse_usize, read_indices, sorted_offsets, stream_ranges,
    title_line_of, write_all_indices, write_indices, write_template_indices, write_title_pageids,
    IndexError,
};
use wikitools::loaders::{build_or_load_page_indices, build_or_load_template_indices, IndexLines};

fn lines(text: &[&str]) -> Vec<String> {
    text.iter().map(|l| l.to_string()).collect()
}

fn source() -> Vec<String> {
    lines(&[
        "616:10:AccessibleComputing",
        "616:12:Anarchism",
        "632461:25:Template:Foo",
        "616:13:AfghanistanHistory",
        "632461:39:Albedo: the film",
        "29:7:Template:Bar:baz",
    ])
}

#[test]
fn source_lines() {
    assert_eq!(parse_source_line("616:10:AccessibleComputing"), Some((616, 10)));
    assert_eq!(parse_source_line("616:10"), Some((616, 10)));
    assert_eq!(parse_source_line("616:10:a:b"), Some((616, 10)));
    assert_eq!(parse_source_line("616"), None);
    assert_eq!(parse_source_line("616:x:a"), None);
    assert_eq!(parse_source_line(":1:a"), None);
    assert_eq!(parse_source_line("1::a"), None);
    assert_eq!(parse_source_line(" 1:2:a"), None);
    assert!(is_template_line("1:2:Template:Foo"));
    assert!(!is_template_line("1:2:About Template:Foo"));
    assert!(!is_template_line("1:2"));
    assert!(!is_template_line("Template:"));
    assert_eq!(parse_usize(&"42".chars().collect()), Some(42));
    assert_eq!(parse_usize(&"99999999999999999999".chars().collect()), None);
}

#[test]
fn kept_lines() {
    assert_eq!(parse_kept_line("616 10,12,13"), Some((616, vec![10, 12, 13])));
    assert_eq!(parse_kept_line("616 10"), Some((616, vec![10])));
    assert_eq!(parse_kept_line("616 10 11"), Some((616, vec![10])));
    assert_eq!(parse_kept_line("616 "), None);
    assert_eq!(parse_kept_line("616"), None);
    assert_eq!(parse_kept_line("616 10,"), None);
    assert_eq!(parse_kept_line("616 ,10"), None);
    assert_eq!(parse_kept_line("a 10"), None);
    assert_eq!(index_line_of(616, &vec![10, 12, 13]), "616 10,12,13\n");
    assert_eq!(index_line_of(0, &vec![7]), "0 7\n");
}

#[test]
fn building_collapses_equal_offsets() {
    let hm = build_indices_map(&source()).unwrap();
    assert_eq!(hm.len(), 3);
    assert_eq!(hm[&616], vec![10, 12, 13]);
    assert_eq!(hm[&632461], vec![25, 39]);
    assert_eq!(hm[&29], vec![7]);
    let templates = find_template_indices(&source()).unwrap();
    assert_eq!(templates.len(), 2);
    assert_eq!(templates[&632461], vec![25]);
    assert_eq!(templates[&29], vec![7]);
    let mut bad = source();
    bad.insert(2, "oops".to_owned());
    assert_eq!(build_indices_map(&bad), Err(IndexError::Malformed(2)));
    assert_eq!(find_template_indices(&bad).unwrap().len(), 2);
    bad[2] = "x:1:Template:T".to_owned();
    assert_eq!(find_template_indices(&bad), Err(IndexError::Malformed(2)));
    assert_eq!(build_indices_map(&vec![]).unwrap().len(), 0);
}

#[test]
fn writing_goes_by_ascending_offset() {
    let hm = build_indices_map(&source()).unwrap();
    assert_eq!(sorted_offsets(&hm), vec![29, 616, 632461]);
    let written = write_indices(&hm);
    assert_eq!(written, lines(&["29 7\n", "616 10,12,13\n", "632461 25,39\n"]));
    let (again, lines_again) = write_all_indices(&source()).unwrap();
    assert_eq!(again, hm);
    assert_eq!(lines_again, written);
    let (templates, template_lines) = write_template_indices(&source()).unwrap();
    assert_eq!(templates.len(), 2);
    assert_eq!(template_lines, lines(&["29 7\n", "632461 25\n"]));
    assert_eq!(write_all_indices(&lines(&["x"])), Err(IndexError::Malformed(0)));
}

#[test]
fn reading_accepts_both_forms() {
    let kept = lines(&["29 7", "616 10,12,13", "632461 25,39"]);
    let hm = read_indices(&kept).unwrap();
    assert_eq!(hm, build_indices_map(&source()).unwrap());
    assert_eq!(read_indices(&source()).unwrap(), hm);
    let mixed = lines(&["5:1:a", "5 7,8", "5:9:b", "6 1", "6 2"]);
    let hm = read_indices(&mixed).unwrap();
    assert_eq!(hm[&5], vec![7, 8, 9]);
    assert_eq!(hm[&6], vec![2]);
    assert_eq!(read_indices(&lines(&["5 1", "6"])), Err(IndexError::Malformed(1)));
    assert_eq!(read_indices(&lines(&["5 a"])), Err(IndexError::Malformed(0)));
}

#[test]
fn read_back_what_was_written() {
    let hm = build_indices_map(&source()).unwrap();
    let written: Vec<String> =
        write_indices(&hm).iter().map(|l| l.trim_end_matches('\n').to_owned()).collect();
    assert_eq!(read_indices(&written).unwrap(), hm);
}

#[test]
fn pages_are_added_in_order() {
    let mut hm: HashMap<usize, Vec<usize>> = HashMap::new();
    add_page(&mut hm, 3, 1);
    add_page(&mut hm, 3, 2);
    add_page(&mut hm, 4, 1);
    assert_eq!(hm[&3], vec![1, 2]);
    assert_eq!(hm[&4], vec![1]);
}

#[test]
fn titles_of_pages() {
    assert_eq!(title_line_of("616:10:Albedo: the film"), Some("10\tAlbedo: the film\n".to_owned()));
    assert_eq!(title_line_of("616:10:"), Some("10\t\n".to_owned()));
    assert_eq!(title_line_of("616:10"), None);
    assert_eq!(title_line_of("616"), None);
    assert_eq!(
        write_title_pageids(&lines(&["1:2:A", "bad", "3:4:B:C", "5:6"])),
        lines(&["2\tA\n", "4\tB:C\n"])
    );
}

#[test]
fn an_index_is_loaded_or_built() {
    let kept = lines(&["29 7", "616 10,12,13", "632461 25,39"]);
    let loaded = build_or_load_page_indices(IndexLines::Kept(kept)).unwrap();
    assert_eq!(loaded.indices.len(), 3);
    assert!(loaded.to_write.is_none());
    let built = build_or_load_page_indices(IndexLines::Source(source())).unwrap();
    assert_eq!(built.indices, loaded.indices);
    assert_eq!(built.to_write.unwrap(), lines(&["29 7\n", "616 10,12,13\n", "632461 25,39\n"]));
    let templates = build_or_load_template_indices(IndexLines::Source(source())).unwrap();
    assert_eq!(templates.indices.len(), 2);
    assert_eq!(templates.to_write.unwrap(), lines(&["29 7\n", "632461 25\n"]));
    let loaded = build_or_load_template_indices(IndexLines::Kept(lines(&["29 7"]))).unwrap();
    assert_eq!(loaded.indices[&29], vec![7]);
    assert!(build_or_load_page_indices(IndexLines::Source(lines(&["?"]))).is_err());
    assert!(build_or_load_template_indices(IndexLines::Kept(lines(&["?"]))).is_err());
}

#[test]
fn the_ranges_of_the_streams() {
    assert_eq!(stream_ranges(&vec![], 10), vec![]);
    assert_eq!(stream_ranges(&vec![0], 10), vec![(0, 10)]);
    assert_eq!(stream_ranges(&vec![0, 4, 9], 10), vec![(0, 4), (4, 9), (9, 10)]);
    assert_eq!(stream_ranges(&vec![3, 7], 7), vec![(3, 7), (7, 7)]);
}

#[test]
fn a_kept_index_is_read_back() {
    let mut index: HashMap<usize, Vec<usize>> = HashMap::new();
    index.insert(0, vec![10, 12, 7]);
    index.insert(654, vec![1]);
    index.insert(usize::MAX, vec![usize::MAX, 0]);
    let written: Vec<String> =
        write_indices(&index).into_iter().map(|l| l.trim_end_matches('\n').to_owned()).collect();
    assert_eq!(read_indices(&written), Ok(index));
}
