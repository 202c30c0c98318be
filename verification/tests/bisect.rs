use wikitools::bisect::{bisect_buffer_recursive, bisect_buffer_with_bounds, BisectError};
use wikitools::chunk_lines::chunk_lines;
use wikitools::multistream::LineView;

#[test]
fn test_bisect_buffer_with_bounds_advances_to_newline() {
    let v = bisect_buffer_with_bounds(b"aaa\nbbc", 0, 7).unwrap();
    assert_eq!(v, 3);
}

#[test]
fn test_bisect_smaller_than_chunk_yields_all() {
    let ret = bisect_buffer_recursive(b"abcd", 10);
    assert_eq!(ret, vec![(0, 4)]);
}

#[test]
fn test_bisect_slice_in_half() {
    let ret = bisect_buffer_recursive(b"aaa\nbbc", 3);
    assert_eq!(ret, vec![(0, 3), (3, 7)])
}

#[test]
fn test_bisect_normal() {
    let ret = bisect_buffer_recursive(b"aaa\nbbb\nccc\nddd\n", 3);
    assert_eq!(ret, vec![(0, 3), (3, 7), (7, 11), (11, 15), (15, 16)]);
}

#[test]
fn bisect_reads_on_to_the_next_line_feed() {
    assert_eq!(bisect_buffer_with_bounds(b"aaaa\nbb", 0, 4), Ok(4));
    assert_eq!(bisect_buffer_with_bounds(b"aaaaaaa", 0, 7), Ok(6));
    assert_eq!(bisect_buffer_with_bounds(b"aaaaaa\n", 0, 7), Ok(6));
    assert_eq!(bisect_buffer_with_bounds(b"ab", 4, 8), Err(BisectError::UnexpectedEof));
}

fn lines_2500() -> Vec<u8> {
    let mut file = vec![b'x'; 2500];
    for at in [500usize, 1200, 2000, 2499] {
        file[at] = b'\n';
    }
    file
}

#[test]
fn bisect_stops_when_one_half_is_small() {
    let file = lines_2500();
    assert_eq!(bisect_buffer_recursive(&file, 800), vec![(0, 2000), (2000, 2500)]);
    assert_eq!(
        bisect_buffer_recursive(&file, 400),
        vec![(0, 1200), (1200, 2000), (2000, 2499), (2499, 2500)]
    );
}

#[test]
fn bisect_covers_every_byte_once() {
    let file = lines_2500();
    for target in [1u64, 2, 7, 100, 400, 800, 1249, 1250, 5000] {
        let ranges = bisect_buffer_recursive(&file, target);
        assert_eq!(ranges, bisect_buffer_recursive(&file, target));
        assert_eq!(ranges[0].0, 0);
        assert_eq!(ranges[ranges.len() - 1].1, 2500);
        let mut sum = 0;
        for (i, (start, end)) in ranges.iter().enumerate() {
            assert!(start < end);
            sum += end - start;
            if i > 0 {
                assert_eq!(ranges[i - 1].1, *start);
                assert_eq!(file[*start as usize], b'\n');
            }
        }
        assert_eq!(sum, 2500);
    }
}

#[test]
fn bisect_without_line_feeds_cuts_at_the_last_byte() {
    assert_eq!(bisect_buffer_recursive(b"aaaaaaaa", 3), vec![(0, 7), (7, 8)]);
}

#[test]
fn an_empty_buffer_has_no_range() {
    assert_eq!(bisect_buffer_recursive(b"", 3), Vec::<(u64, u64)>::new());
    assert_eq!(bisect_buffer_recursive(b"", 1), Vec::<(u64, u64)>::new());
    assert_eq!(bisect_buffer_recursive(b"a", 1), vec![(0, 1)]);
}

#[test]
fn the_lines_of_a_range() {
    let file = b"aaa\nbbc";
    assert_eq!(chunk_lines(file, 0, 3), Some(vec!["aaa".to_owned()]));
    assert_eq!(chunk_lines(file, 3, 7), Some(vec!["bbc".to_owned()]));
    assert_eq!(chunk_lines(file, 0, 7), Some(vec!["aaa".to_owned(), "bbc".to_owned()]));
    assert_eq!(chunk_lines(file, 4, 4), Some(vec![]));
    assert_eq!(chunk_lines(b"", 0, 0), Some(vec![]));
    let returns = b"a\r\n\nb\r";
    assert_eq!(chunk_lines(returns, 0, 2), Some(vec!["a".to_owned()]));
    assert_eq!(chunk_lines(returns, 2, 3), Some(vec!["".to_owned()]));
    assert_eq!(chunk_lines(returns, 3, 6), Some(vec!["b\r".to_owned()]));
    assert_eq!(chunk_lines(b"\nx\n", 0, 2), Some(vec!["".to_owned(), "x".to_owned()]));
    assert_eq!(chunk_lines(b"\nx\n", 0, 3), Some(vec!["".to_owned(), "x".to_owned()]));
    assert_eq!(chunk_lines(b"\nx\n", 2, 3), Some(vec![]));
    assert_eq!(chunk_lines(b"\xc3\xa9\n\xff\n", 0, 2), Some(vec!["\u{e9}".to_owned()]));
    assert_eq!(chunk_lines(b"\xc3\xa9\n\xff\n", 2, 5), None);
}

#[test]
fn every_line_is_a_line_of_one_range() {
    let mut file = String::new();
    for i in 0..200 {
        file.push_str(&format!("{}\tTitle\tsurface {}\tPage {}\r\n", i, i % 7, i % 5));
        if i % 13 == 0 {
            file.push('\n');
        }
    }
    let whole = LineView::from_buf(&file).collect();
    for target in [1u64, 5, 64, 500, 100_000] {
        let mut joined: Vec<String> = Vec::new();
        for (start, end) in bisect_buffer_recursive(file.as_bytes(), target) {
            joined.extend(chunk_lines(file.as_bytes(), start, end).unwrap());
        }
        assert_eq!(joined, whole);
    }
}
