//! The query engine: scoring tiers, ordering, numeric kernels.

use xkcd_search::comic::{build_document, Comic, Document};
use xkcd_search::numeric::{isqrt, mlog10_milli};
use xkcd_search::search::{calculate_idf, cosine_similarity, search, vectorize_string, Tier};
use xkcd_search::utils::Field;

fn comic(num: u16, title: &str, alt: &str) -> Comic {
    Comic {
        month: String::from("1"),
        num,
        year: String::from("2024"),
        day: String::from("2"),
        title: String::from(title),
        alt: String::from(alt),
        img: String::from("img"),
        transcript: String::new(),
    }
}

#[test]
fn exact_match_ranks_ahead_of_fuzzy_fallback() {
    let d = build_document(vec![
        comic(1, "Cats And Dogs", "funny cats"),
        comic(2, "Robots", "a robot cat"),
    ]);
    let res = search("cats", &d);
    assert_eq!(res.len(), 2);
    // the record holding the exact token is a lexical candidate and comes
    // first; the other lacks the token and falls to the fuzzy tier
    assert_eq!(res[0].2.num, 1);
    assert!(matches!(res[0].0, Tier::Lexical));
    assert!(res[0].1 > 100000);
    assert_eq!(res[1].2.num, 2);
    assert!(matches!(res[1].0, Tier::Fuzzy));
    assert!(res[1].1 > 0);
    assert!(res[1].1 <= 250000);
}

#[test]
fn empty_corpus_yields_no_results() {
    let d = Document::new();
    assert!(search("anything at all", &d).is_empty());
    assert!(search("", &d).is_empty());
}

#[test]
fn token_free_query_admits_nobody() {
    let d = build_document(vec![comic(1, "alpha", "beta"), comic(2, "gamma", "delta")]);
    // the query strips to nothing: every record is judged by the fuzzy tier
    // alone, and against an all-zero query histogram no similarity is
    // positive, so no record is admitted
    let res = search("... ---", &d);
    assert!(res.is_empty());
}

#[test]
fn results_come_back_sorted() {
    let d = build_document(vec![
        comic(1, "cat cat cat", ""),
        comic(2, "cat and more words here", ""),
        comic(3, "entirely unrelated", ""),
    ]);
    let res = search("cat", &d);
    for w in res.windows(2) {
        let ra = if matches!(w[0].0, Tier::Lexical) { 0 } else { 1 };
        let rb = if matches!(w[1].0, Tier::Lexical) { 0 } else { 1 };
        assert!(ra < rb || (ra == rb && w[0].1 >= w[1].1));
    }
    // the title made of the token alone scores strongest
    assert_eq!(res[0].2.num, 1);
}

#[test]
fn ties_break_by_title() {
    let d = build_document(vec![comic(1, "zebra", "x"), comic(2, "aardvark", "x")]);
    let res = search("x", &d);
    if res.len() == 2 && res[0].0 == res[1].0 && res[0].1 == res[1].1 {
        assert!(res[0].2.title <= res[1].2.title);
    }
}

#[test]
fn histogram_counts_base36_characters() {
    let h = vectorize_string("a0A!");
    assert_eq!(h.len(), 96);
    // 'a' and 'A' share the digit value ten; '0' has value zero;
    // '!' contributes nothing
    assert_eq!(h[10], 2);
    assert_eq!(h[0], 1);
    let total: u64 = h.iter().sum();
    assert_eq!(total, 3);
}

#[test]
fn cosine_of_a_histogram_with_itself_is_one() {
    let h = vectorize_string("some text with letters");
    assert_eq!(cosine_similarity(&h, &h), 1000000);
}

#[test]
fn cosine_of_disjoint_histograms_is_zero() {
    let a = vectorize_string("aaa");
    let b = vectorize_string("bbb");
    assert_eq!(cosine_similarity(&a, &b), 0);
    let e = vectorize_string("!!!");
    assert_eq!(cosine_similarity(&a, &e), 0);
}

#[test]
fn log_kernel_hits_known_values() {
    assert_eq!(mlog10_milli(1, 1), 0);
    assert_eq!(mlog10_milli(1, 10), 1000);
    assert_eq!(mlog10_milli(1, 1000), 3000);
    assert_eq!(mlog10_milli(1, 2), 301);
    assert_eq!(mlog10_milli(5, 10), 301);
    assert_eq!(mlog10_milli(7, 7), 0);
}

#[test]
fn integer_square_root_brackets() {
    assert_eq!(isqrt(0), 0);
    assert_eq!(isqrt(1), 1);
    assert_eq!(isqrt(15), 3);
    assert_eq!(isqrt(16), 4);
    assert_eq!(isqrt(17), 4);
    assert_eq!(isqrt(u128::MAX), u64::MAX);
}

#[test]
fn near_universal_token_keeps_a_nonzero_idf() {
    // 999 of 1000 records hold the token: the logarithm truncates to zero
    // thousandths, but the floor keeps the token informative
    let mut comics = Vec::new();
    for i in 0..999u16 {
        comics.push(comic(i + 1, "cat stuff", ""));
    }
    comics.push(comic(1000, "stuff", ""));
    let d = build_document(comics);
    assert_eq!(calculate_idf("cat", &d.frequency, &Field::Title, 1000), 1);
    // a token in every record is exactly uninformative
    assert_eq!(calculate_idf("stuff", &d.frequency, &Field::Title, 1000), 0);
    // an absent token defaults to a document frequency of one
    assert_eq!(calculate_idf("zebra", &d.frequency, &Field::Title, 1000), 3000);
}

#[test]
fn token_in_every_record_is_uninformative() {
    // a token present in every record has zero inverse document frequency,
    // so a search for it alone falls through to the fuzzy tier
    let d = build_document(vec![comic(1, "cat alpha", ""), comic(2, "cat beta", "")]);
    let res = search("cat", &d);
    for (tier, score, _) in &res {
        assert!(matches!(tier, Tier::Fuzzy));
        assert!(*score > 0);
        assert!(*score <= 250000);
    }
}
