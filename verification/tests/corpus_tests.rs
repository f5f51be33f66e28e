//! Indexing and corpus maintenance: term counts, document frequencies,
//! idempotent append.

use xkcd_search::comic::{
    append_to_document, build_document, index_comic, Comic, ComicFrequency, Document,
};
use xkcd_search::tokenmap::TokenMap;

fn comic(num: u16, title: &str, alt: &str) -> Comic {
    Comic {
        month: String::from("1"),
        num,
        year: String::from("2024"),
        day: String::from("2"),
        title: String::from(title),
        alt: String::from(alt),
        img: String::from("img"),
        transcript: String::new(),
    }
}

#[test]
fn repeated_token_counts_once_in_document_frequency() {
    let mut df = ComicFrequency { alt_freq: TokenMap::new(), title_freq: TokenMap::new() };
    let c = comic(1, "the the cat", "");
    let ix = index_comic(&c, &mut df);
    // within the record the token counts twice
    assert_eq!(ix.title_freq.get("the"), Some(2));
    assert_eq!(ix.title_freq.get("cat"), Some(1));
    assert_eq!(ix.title_len, 3);
    // in the aggregate it contributes exactly one
    assert_eq!(df.title_freq.get("the"), Some(1));
    assert_eq!(df.title_freq.get("cat"), Some(1));
}

#[test]
fn document_frequency_counts_records_not_occurrences() {
    let d = build_document(vec![
        comic(1, "cat cat", "a cat"),
        comic(2, "dog", "cat and dog"),
        comic(3, "bird", "plain sky"),
    ]);
    assert_eq!(d.frequency.title_freq.get("cat"), Some(1));
    assert_eq!(d.frequency.alt_freq.get("cat"), Some(2));
    assert_eq!(d.frequency.title_freq.get("dog"), Some(1));
    assert_eq!(d.frequency.alt_freq.get("dog"), Some(1));
    assert_eq!(d.frequency.title_freq.get("sky"), None);
    assert_eq!(d.frequency.alt_freq.get("sky"), Some(1));
}

#[test]
fn build_keeps_arrival_order() {
    let d = build_document(vec![comic(7, "seven", ""), comic(3, "three", "")]);
    assert_eq!(d.comics.len(), 2);
    assert_eq!(d.comics[0].comic.num, 7);
    assert_eq!(d.comics[1].comic.num, 3);
}

#[test]
fn append_adds_an_absent_record() {
    let mut d = build_document(vec![comic(1, "one", "")]);
    let added = append_to_document(&mut d, &comic(2, "two", "two again"));
    assert!(added);
    assert_eq!(d.comics.len(), 2);
    assert_eq!(d.frequency.title_freq.get("two"), Some(1));
}

#[test]
fn append_of_present_id_leaves_corpus_unchanged() {
    let mut d = build_document(vec![comic(1, "one", "alt one"), comic(2, "two", "")]);
    let before = build_document(vec![comic(1, "one", "alt one"), comic(2, "two", "")]);
    let added = append_to_document(&mut d, &comic(2, "different title", "different alt"));
    assert!(!added);
    assert_eq!(d, before);
}

#[test]
fn contains_num_sees_only_present_ids() {
    let d = build_document(vec![comic(5, "five", "")]);
    assert!(d.contains_num(5));
    assert!(!d.contains_num(6));
}

#[test]
fn empty_document_is_empty() {
    let d = Document::new();
    assert_eq!(d.comics.len(), 0);
    assert_eq!(d.frequency.title_freq.len(), 0);
    assert_eq!(d.frequency.alt_freq.len(), 0);
}

#[test]
fn check_wf_accepts_built_corpora() {
    assert!(Document::new().check_wf());
    let d = build_document(vec![comic(1, "cat cat", "a cat"), comic(2, "dog", "cat and dog")]);
    assert!(d.check_wf());
}

#[test]
fn check_wf_refuses_a_corrupted_aggregate() {
    let mut d = build_document(vec![comic(1, "cat", ""), comic(2, "cat dog", "")]);
    assert!(d.check_wf());
    // overstate one document frequency
    for e in d.frequency.title_freq.entries.iter_mut() {
        if e.token == "cat" {
            e.count += 1;
        }
    }
    assert!(!d.check_wf());
}

#[test]
fn check_wf_refuses_a_missing_aggregate_entry() {
    let mut d = build_document(vec![comic(1, "cat", "")]);
    d.frequency.title_freq.entries.clear();
    assert!(!d.check_wf());
}

#[test]
fn plan_ids_counts_from_one() {
    let ids = xkcd_search::comic::plan_ids(4);
    assert_eq!(ids, vec![1, 2, 3, 4]);
    assert_eq!(xkcd_search::comic::plan_ids(0), Vec::<u16>::new());
}
