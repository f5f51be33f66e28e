//! Display rows: score formatting, alt shortening, links.

use xkcd_search::comic::Comic;
use xkcd_search::table::{format_rank, ComicTable};

fn comic(num: u16, title: &str, alt: &str) -> Comic {
    Comic {
        month: String::from("1"),
        num,
        year: String::from("2024"),
        day: String::from("2"),
        title: String::from(title),
        alt: String::from(alt),
        img: String::from("img"),
        transcript: String::new(),
    }
}

#[test]
fn rank_prints_four_decimal_places() {
    assert_eq!(format_rank(0), "0.0000");
    assert_eq!(format_rank(60200), "0.0602");
    assert_eq!(format_rank(1234567), "1.2345");
    assert_eq!(format_rank(1000000), "1.0000");
    assert_eq!(format_rank(250000), "0.2500");
}

#[test]
fn row_carries_title_and_shortened_alt() {
    let c = comic(353, "Python", "this alt text is much longer than twenty characters");
    let t = ComicTable::new(60200, &c);
    assert_eq!(t.rank, "0.0602");
    assert_eq!(t.title, "Python");
    assert_eq!(t.alternate, "this alt text is muc...");
    assert!(t.link.contains("https://xkcd.com/353"));
    assert!(t.link.contains("xkcd/353"));
}

#[test]
fn short_alt_is_kept_whole() {
    let c = comic(1, "t", "short alt");
    let t = ComicTable::new(0, &c);
    assert_eq!(t.alternate, "short alt...");
}
