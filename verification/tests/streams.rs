use std::io::Write;
use wikitools::multistream::{
    after_step, BZipMultiStream, BzDecoderMulti, DecodeError, DecodeStatus, LineView, ReadAction,
    ReadOutcome,
};
use wikitools::page::Page;
use wikitools::page_iter::StreamError;

fn compress(text: &str) -> Vec<u8> {
    let mut encoder = bzip2::write::BzEncoder::new(Vec::new(), bzip2::Compression::default());
    encoder.write_all(text.as_bytes()).unwrap();
    encoder.finish().unwrap()
}

#[test]
fn lines_are_cut_at_line_feeds() {
    let mut view = LineView::from_buf("a\r\nb\n\nlast\r");
    assert_eq!(view.next(), Some("a".to_owned()));
    assert_eq!(view.next(), Some("b".to_owned()));
    assert_eq!(view.next(), Some("".to_owned()));
    assert_eq!(view.next(), Some("last\r".to_owned()));
    assert_eq!(view.next(), None);
    assert_eq!(view.next(), None);
    assert_eq!(LineView::from_buf("x\ny\n").collect(), vec!["x", "y"]);
    assert_eq!(LineView::from_buf("").collect(), Vec::<String>::new());
    assert_eq!(LineView::from_buf("\n").collect(), vec![""]);
    assert_eq!(LineView::from_buf("\r\n\r").collect(), vec!["", "\r"]);
}

#[test]
fn a_read_goes_on_while_nothing_is_decoded() {
    assert_eq!(after_step(DecodeStatus::StreamEnd, 0, false, false), ReadAction::Finish);
    assert_eq!(after_step(DecodeStatus::StreamEnd, 9, true, true), ReadAction::Finish);
    assert_eq!(after_step(DecodeStatus::Running, 1, false, false), ReadAction::Return);
    assert_eq!(after_step(DecodeStatus::Running, 0, true, false), ReadAction::Return);
    assert_eq!(after_step(DecodeStatus::Running, 0, false, true), ReadAction::Return);
    assert_eq!(after_step(DecodeStatus::Running, 0, false, false), ReadAction::Again);
    assert_eq!(after_step(DecodeStatus::MemNeeded, 0, false, false), ReadAction::Again);
}

#[test]
fn streams_are_decoded_one_after_the_other() {
    let first = compress("first stream\n");
    let second = compress("second stream\n");
    let mut data = first.clone();
    data.extend_from_slice(&second);
    let mut stream = BZipMultiStream::new(data.clone());
    assert!(!stream.done());
    assert_eq!(stream.read_stream().unwrap(), b"first stream\n");
    assert!(stream.cycle());
    assert_eq!(stream.bytes, first.len());
    assert_eq!(stream.read_stream().unwrap(), b"second stream\n");
    assert!(stream.cycle());
    assert_eq!(stream.bytes, data.len());
    assert_eq!(stream.read_stream().unwrap(), b"");
    assert!(!stream.cycle());
    assert!(stream.done());
    let mut at_second = BZipMultiStream::open(data.clone(), first.len());
    assert_eq!(at_second.read_stream().unwrap(), b"second stream\n");
    let mut broken = BZipMultiStream::open(data.clone(), 3);
    assert!(broken.read_stream().is_err());
    let mut behind = BZipMultiStream::open(data.clone(), data.len() + 10);
    assert_eq!(behind.read_stream().unwrap(), b"");
}

#[test]
fn a_decoder_reads_in_pieces() {
    let text = "0123456789".repeat(5000);
    let data = compress(&text);
    let mut decoder = BzDecoderMulti::new(data, 0);
    let mut out: Vec<u8> = Vec::new();
    let mut reads = 0;
    while !decoder.done {
        let before = out.len();
        let n = decoder.read(&mut out, 4096).unwrap();
        assert_eq!(out.len(), before + n);
        reads += 1;
        assert!(reads < 1000);
    }
    assert_eq!(out, text.as_bytes());
    assert_eq!(decoder.read(&mut out, 4096), Ok(0));
    assert_eq!(out.len(), text.len());
    assert!(decoder.in_bytes() > 0);
    decoder.reset();
    assert!(!decoder.done);
}

#[test]
fn pages_of_a_stream_of_a_dump() {
    let head = compress("<mediawiki>");
    let pages = compress(
        "<page><title>A</title><id>1</id><text>[[B]] é</text></page><page><title>File:X</title><text>x</text></page><page><title>C</title><id>3</id><text>[[D|d]]</text></page>",
    );
    let mut data = head.clone();
    data.extend_from_slice(&pages);
    let found = Page::index_to_pages(data.clone(), head.len()).unwrap();
    assert_eq!(found.len(), 2);
    assert_eq!(found[0].title, "A");
    assert_eq!(found[0].id, "1");
    assert_eq!(found[0].anchors.len(), 1);
    assert_eq!(found[1].title, "C");
    assert!(matches!(Page::index_to_pages(data.clone(), 1), Err(StreamError::Decode(_))));
    let mut encoder = bzip2::write::BzEncoder::new(Vec::new(), bzip2::Compression::default());
    encoder.write_all(&[0xff, 0xfe]).unwrap();
    let bytes = encoder.finish().unwrap();
    assert_eq!(Page::index_to_pages(bytes, 0), Err(StreamError::NotText));
}

#[test]
fn what_follows_from_a_step_of_the_decoder() {
    let mut d = BzDecoderMulti::new(vec![0u8; 10], 2);
    assert_eq!(d.after_decode(5, 8, Ok(DecodeStatus::Running), 0, false), ReadOutcome::Again);
    assert_eq!(d.pos, 5);
    assert!(!d.done);
    assert_eq!(d.after_decode(8, 8, Ok(DecodeStatus::Running), 0, false), ReadOutcome::Done(Ok(0)));
    assert_eq!(d.pos, 5);
    assert_eq!(d.after_decode(8, 9, Ok(DecodeStatus::Running), 4, false), ReadOutcome::Done(Ok(4)));
    assert_eq!(d.pos, 6);
    assert_eq!(
        d.after_decode(9, 10, Err(DecodeError::Data), 0, false),
        ReadOutcome::Done(Err(DecodeError::Data))
    );
    assert_eq!(d.pos, 7);
    assert!(!d.done);
    assert_eq!(d.after_decode(10, 9, Ok(DecodeStatus::Running), 0, true), ReadOutcome::Done(Ok(0)));
    assert_eq!(d.pos, 10);
    let mut short = BzDecoderMulti::new(vec![0u8; 10], 2);
    assert_eq!(
        short.after_decode(3, 4, Ok(DecodeStatus::MemNeeded), 0, false),
        ReadOutcome::Done(Err(DecodeError::Memory))
    );
    assert_eq!(short.pos, 3);
    assert!(!short.done);
    let mut e = BzDecoderMulti::new(vec![0u8; 10], 2);
    assert_eq!(e.after_decode(0, 100, Ok(DecodeStatus::StreamEnd), 3, false), ReadOutcome::Done(Ok(3)));
    assert_eq!(e.pos, 10);
    assert!(e.done);
    let mut out = vec![1u8];
    assert_eq!(e.read(&mut out, 16), Ok(0));
    assert_eq!(out, vec![1u8]);
    assert_eq!(e.pos, 10);
}

#[test]
fn a_stream_that_has_ended_gives_nothing() {
    let mut stream = BZipMultiStream::new(compress("x"));
    assert_eq!(stream.read_stream().unwrap(), b"x");
    assert!(stream.reader.done);
    let pos = stream.reader.pos;
    assert_eq!(stream.read_stream().unwrap(), b"");
    assert_eq!(stream.reader.pos, pos);
}

#[test]
fn pages_of_the_bytes_of_a_stream() {
    let pages = Page::pages_of_stream(
        "<page><title>A</title><id>1</id><text>[[B]]</text></page>".as_bytes().to_vec(),
    )
    .unwrap();
    assert_eq!(pages.len(), 1);
    assert_eq!(pages[0].title, "A");
    assert_eq!(Page::pages_of_stream(vec![0xff, 0xfe]), Err(StreamError::NotText));
    assert_eq!(Page::pages_of_stream(vec![]), Ok(vec![]));
}

#[test]
fn reads_give_the_bytes_of_the_stream_piece_by_piece() {
    let text = "one line\nand another\n".repeat(40);
    let mut data = compress(&text);
    let first = data.len();
    data.extend(compress("second stream"));
    let mut d = BzDecoderMulti::new(data.clone(), 0);
    assert_eq!(d.in_bytes(), 0);
    let mut out = Vec::new();
    let mut rounds = 0;
    while !d.done {
        let before = out.len();
        let n = d.read(&mut out, 7).unwrap();
        assert!(n <= 7);
        assert_eq!(out.len(), before + n);
        rounds += 1;
        assert!(rounds < 10_000);
    }
    assert_eq!(out, text.as_bytes());
    assert_eq!(d.pos, first);
    assert_eq!(d.in_bytes(), first);
    assert_eq!(d.read(&mut out, 7), Ok(0));
    d.reset();
    assert_eq!(d.in_bytes(), 0);
    let mut second = Vec::new();
    while !d.done {
        d.read(&mut second, 1000).unwrap();
    }
    assert_eq!(second, b"second stream");
    assert_eq!(d.pos, data.len());
    let mut empty_room = BzDecoderMulti::new(data.clone(), 0);
    let mut none = vec![9u8];
    assert_eq!(empty_room.read(&mut none, 0), Ok(0));
    assert_eq!(none, vec![9u8]);
    let mut broken = BzDecoderMulti::new(b"BZh9 this is no stream".to_vec(), 0);
    let mut sink = Vec::new();
    assert!(matches!(broken.read(&mut sink, 16), Err(DecodeError::Data) | Err(DecodeError::DataMagic)));
    assert_eq!(sink, Vec::<u8>::new());
    let mut stream = BZipMultiStream::new(data.clone());
    assert_eq!(stream.read_stream().unwrap(), text.as_bytes());
    assert!(stream.cycle());
    assert_eq!(stream.bytes, first);
    assert_eq!(stream.read_stream().unwrap(), b"second stream");
    let mut cut = BZipMultiStream::new(data[..first - 5].to_vec());
    if let Ok(part) = cut.read_stream() {
        assert!(text.as_bytes().starts_with(&part));
    }
    assert!(!cut.reader.done);
    assert_eq!(cut.reader.pos, first - 5);
}
