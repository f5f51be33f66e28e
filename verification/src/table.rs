//! Rows for rendering ranked results.
//!
//! A row carries the display text for one ranked record: the score printed
//! with four decimal places, the title, a shortened alt text, and a terminal
//! hyperlink to the record. Building the texts is verified; drawing the
//! table is a caller's concern.

use crate::comic::Comic;
use crate::strutil::string_of_chars;
use vstd::prelude::*;

verus! {

/// The decimal digit character of a value below ten.
pub open spec fn digit_char(d: u64) -> char {
    ((d + 0x30) as u8) as char
}

/// The decimal digits of a number, most significant first.
pub open spec fn dec_digits(n: u64) -> Seq<char>
    decreases n,
{
    if n < 10 {
        seq![digit_char(n)]
    } else {
        dec_digits(n / 10).push(digit_char(n % 10))
    }
}

/// Appends the decimal digits of a number.
pub fn push_dec(out: &mut Vec<char>, n: u64)
    ensures
        final(out)@ == old(out)@ + dec_digits(n),
    decreases n,
{
    if n < 10 {
        out.push(((n + 0x30) as u8) as char);
        proof {
            assert(out@ =~= old(out)@ + dec_digits(n));
        }
    } else {
        push_dec(out, n / 10);
        out.push(((n % 10 + 0x30) as u8) as char);
        proof {
            assert(out@ =~= old(out)@ + dec_digits(n));
        }
    }
}

/// Four fractional digits, zero-padded on the left.
pub open spec fn frac4_digits(f: u64) -> Seq<char> {
    if f < 10 {
        seq!['0', '0', '0'] + dec_digits(f)
    } else if f < 100 {
        seq!['0', '0'] + dec_digits(f)
    } else if f < 1000 {
        seq!['0'] + dec_digits(f)
    } else {
        dec_digits(f)
    }
}

/// A score in millionths, printed with four decimal places (truncated).
pub open spec fn rank_text(m: u64) -> Seq<char> {
    dec_digits(m / 1000000) + seq!['.'] + frac4_digits((m / 100) % 10000)
}

/// Prints a score given in millionths with four decimal places; the fifth
/// and further places are cut off, not rounded.
pub fn format_rank(m: u64) -> (r: String)
    ensures
        r@ == rank_text(m),
{
    let mut chars: Vec<char> = Vec::new();
    push_dec(&mut chars, m / 1000000);
    chars.push('.');
    let f = (m / 100) % 10000;
    if f < 10 {
        chars.push('0');
        chars.push('0');
        chars.push('0');
    } else if f < 100 {
        chars.push('0');
        chars.push('0');
    } else if f < 1000 {
        chars.push('0');
    }
    push_dec(&mut chars, f);
    proof {
        assert(chars@ =~= rank_text(m));
    }
    string_of_chars(&chars)
}

/// The alt text shortened to its first twenty characters, with an ellipsis.
pub open spec fn alt_preview(s: Seq<char>) -> Seq<char> {
    (if s.len() <= 20 {
        s
    } else {
        s.take(20)
    }) + seq!['.', '.', '.']
}

/// One display row of the result table.
pub struct ComicTable {
    pub rank: String,
    pub title: String,
    pub alternate: String,
    pub link: String,
}

impl ComicTable {
    /// Builds the display row of one ranked record, for the given score in
    /// millionths (higher is better).
    pub fn new(rank_micros: u64, comic: &Comic) -> (t: ComicTable)
        ensures
            t.rank@ == rank_text(rank_micros),
            t.title@ == comic@.title,
            t.alternate@ == alt_preview(comic@.alt),
            t.link@ == "\u{1b}]8;;https://xkcd.com/"@ + dec_digits(comic@.num as u64)
                + "\u{1b}\\xkcd/"@ + dec_digits(comic@.num as u64) + "\u{1b}]8;;\u{1b}\\"@,
    {
        let rank = format_rank(rank_micros);
        let title = comic.title.clone();
        let alen = comic.alt.unicode_len();
        let shortened = if alen <= 20 {
            comic.alt.clone()
        } else {
            String::from_str(comic.alt.as_str().substring_char(0, 20))
        };
        let mut alternate = shortened;
        alternate.append("...");
        proof {
            reveal_strlit("...");
            assert(alternate@ =~= alt_preview(comic@.alt));
        }
        let mut num_chars: Vec<char> = Vec::new();
        push_dec(&mut num_chars, comic.num as u64);
        let num_text = crate::strutil::string_of_chars(&num_chars);
        let mut link = String::from_str("\u{1b}]8;;https://xkcd.com/");
        link.append(num_text.as_str());
        link.append("\u{1b}\\xkcd/");
        link.append(num_text.as_str());
        link.append("\u{1b}]8;;\u{1b}\\");
        proof {
            assert(num_chars@ =~= dec_digits(comic@.num as u64));
        }
        ComicTable { rank, title, alternate, link }
    }
}

} // verus!
