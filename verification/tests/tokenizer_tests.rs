//! Tokenizer behavior: lowercasing, punctuation stripping, splitting.

use xkcd_search::tokenize::{tokenize, tokenize_folded};

fn toks(s: &str) -> Vec<String> {
    tokenize(s)
}

#[test]
fn lowercases_and_splits() {
    assert_eq!(toks("Cats And Dogs"), vec!["cats", "and", "dogs"]);
}

#[test]
fn strips_punctuation_set() {
    assert_eq!(toks("(a,b) c.d; e:f-g'h\"i"), vec!["ab", "cd", "efghi"]);
}

#[test]
fn punctuation_only_words_vanish() {
    assert_eq!(toks("--- ,;: cat"), vec!["cat"]);
}

#[test]
fn empty_and_whitespace_only() {
    assert_eq!(toks(""), Vec::<String>::new());
    assert_eq!(toks("   \t \n "), Vec::<String>::new());
}

#[test]
fn collapses_runs_of_whitespace() {
    assert_eq!(toks("a   b\t\tc"), vec!["a", "b", "c"]);
}

#[test]
fn normalized_input_is_unchanged() {
    let once = toks("cats and dogs");
    let again = toks(&once.join(" "));
    assert_eq!(once, again);
}

#[test]
fn lowercases_beyond_ascii() {
    assert_eq!(toks("\u{c9}COLE Caf\u{c9}"), vec!["\u{e9}cole", "caf\u{e9}"]);
}

#[test]
fn folded_tokenizer_keeps_case() {
    // the folded entry point assumes lowercasing already happened
    assert_eq!(tokenize_folded("abc def"), vec!["abc", "def"]);
}

#[test]
fn tokens_never_hold_strip_characters() {
    for t in toks("a-b c'd (e) \"f\" g.h,i;j:k") {
        for c in t.chars() {
            assert!(!"(),\".;:-'".contains(c));
            assert!(!c.is_whitespace());
        }
    }
}
