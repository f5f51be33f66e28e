//! Snapshot round trips: loading a persisted corpus restores it exactly.

use xkcd_search::codec::{decode_document, encode_document};
use xkcd_search::comic::{build_document, Comic, Document};

fn comic(num: u16, title: &str, alt: &str) -> Comic {
    Comic {
        month: String::from("12"),
        num,
        year: String::from("2023"),
        day: String::from("31"),
        title: String::from(title),
        alt: String::from(alt),
        img: String::from("https://example.test/i.png"),
        transcript: String::from("a transcript, with punctuation!"),
    }
}

#[test]
fn round_trip_restores_a_corpus() {
    let d = build_document(vec![
        comic(1, "Cats And Dogs", "funny cats"),
        comic(2, "Robots", "a robot cat"),
        comic(600, "", "empty title above"),
    ]);
    let bytes = encode_document(&d);
    let back = decode_document(bytes.as_slice()).expect("an encoded corpus must load");
    assert_eq!(back, d);
}

#[test]
fn round_trip_restores_the_empty_corpus() {
    let d = Document::new();
    let bytes = encode_document(&d);
    let back = decode_document(bytes.as_slice()).expect("an encoded corpus must load");
    assert_eq!(back, d);
}

#[test]
fn round_trip_keeps_unicode_text() {
    let d = build_document(vec![comic(3, "caf\u{e9} na\u{ef}ve \u{1f600}", "\u{3053}\u{3093}")]);
    let bytes = encode_document(&d);
    let back = decode_document(bytes.as_slice()).expect("an encoded corpus must load");
    assert_eq!(back, d);
}

#[test]
fn a_loaded_corpus_searches_like_the_one_persisted() {
    let d = build_document(vec![
        comic(1, "Cats And Dogs", "funny cats"),
        comic(2, "Robots", "a robot cat"),
    ]);
    let bytes = encode_document(&d);
    let back = decode_document(bytes.as_slice()).expect("an encoded corpus must load");
    let before = xkcd_search::search::search("cats", &d);
    let after = xkcd_search::search::search("cats", &back);
    assert_eq!(before, after);
}

#[test]
fn truncated_snapshot_is_refused() {
    let d = build_document(vec![comic(1, "one", "alt")]);
    let mut bytes = encode_document(&d);
    bytes.pop();
    assert!(decode_document(bytes.as_slice()).is_none());
}

#[test]
fn trailing_garbage_is_refused() {
    let d = build_document(vec![comic(1, "one", "alt")]);
    let mut bytes = encode_document(&d);
    bytes.push(0);
    assert!(decode_document(bytes.as_slice()).is_none());
}

#[test]
fn empty_bytes_are_refused() {
    assert!(decode_document(&[]).is_none());
}
