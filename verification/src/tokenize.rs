//! Tokenizer/normalizer shared by indexing and querying.
//!
//! A text field is normalized to lowercase, characters from a fixed
//! punctuation removal set are stripped, and the remainder is split on
//! whitespace. The result is an ordered sequence of tokens.

use crate::strutil::string_of_chars;
use vstd::prelude::*;

verus! {

/// Membership in the fixed punctuation removal set `( ) , " . ; : - '`.
pub open spec fn is_strip_char(c: char) -> bool {
    c == '(' || c == ')' || c == ',' || c == '"' || c == '.' || c == ';' || c == ':' || c == '-'
        || c == '\''
}

/// Membership in the set of whitespace separators (the Unicode `White_Space`
/// code points).
pub open spec fn is_space_char(c: char) -> bool {
    let u = c as u32;
    (0x09 <= u && u <= 0x0D) || u == 0x20 || u == 0x85 || u == 0xA0 || u == 0x1680 || (0x2000 <= u
        && u <= 0x200A) || u == 0x2028 || u == 0x2029 || u == 0x202F || u == 0x205F || u == 0x3000
}

/// Decides `is_strip_char`.
pub fn is_strip(c: char) -> (r: bool)
    ensures
        r == is_strip_char(c),
{
    c == '(' || c == ')' || c == ',' || c == '"' || c == '.' || c == ';' || c == ':' || c == '-'
        || c == '\''
}

/// Decides `is_space_char`.
pub fn is_space(c: char) -> (r: bool)
    ensures
        r == is_space_char(c),
{
    let u = c as u32;
    (0x09 <= u && u <= 0x0D) || u == 0x20 || u == 0x85 || u == 0xA0 || u == 0x1680 || (0x2000 <= u
        && u <= 0x200A) || u == 0x2028 || u == 0x2029 || u == 0x202F || u == 0x205F || u == 0x3000
}

/// The sequence with every punctuation character removed.
pub open spec fn strip_seq(s: Seq<char>) -> Seq<char>
    decreases s.len(),
{
    if s.len() == 0 {
        Seq::empty()
    } else {
        let rest = strip_seq(s.drop_last());
        if is_strip_char(s.last()) {
            rest
        } else {
            rest.push(s.last())
        }
    }
}

/// Length of the leading run of non-whitespace characters.
pub open spec fn word_len(s: Seq<char>) -> nat
    decreases s.len(),
{
    if s.len() == 0 || is_space_char(s[0]) {
        0
    } else {
        1 + word_len(s.drop_first())
    }
}

/// `word_len` marks the first whitespace position, if any.
pub proof fn lemma_word_len(s: Seq<char>)
    ensures
        word_len(s) <= s.len(),
        forall|j: int| 0 <= j < word_len(s) ==> !is_space_char(#[trigger] s[j]),
        word_len(s) < s.len() ==> is_space_char(s[word_len(s) as int]),
        s.len() > 0 && !is_space_char(s[0]) ==> word_len(s) >= 1,
    decreases s.len(),
{
    if s.len() == 0 || is_space_char(s[0]) {
    } else {
        lemma_word_len(s.drop_first());
        assert forall|j: int| 0 <= j < word_len(s) implies !is_space_char(s[j]) by {
            if j > 0 {
                assert(!is_space_char(s.drop_first()[j - 1]));
                assert(s.drop_first()[j - 1] == s[j]);
            }
        }
        if word_len(s) < s.len() {
            assert(s.drop_first()[word_len(s) - 1] == s[word_len(s) as int]);
        }
    }
}

/// Splits a sequence on whitespace into its maximal non-whitespace runs.
pub open spec fn split_spaces(s: Seq<char>) -> Seq<Seq<char>>
    decreases s.len(),
    via split_spaces_dec
{
    if s.len() == 0 {
        Seq::empty()
    } else if is_space_char(s[0]) {
        split_spaces(s.drop_first())
    } else {
        seq![s.take(word_len(s) as int)] + split_spaces(s.skip(word_len(s) as int))
    }
}

#[via_fn]
proof fn split_spaces_dec(s: Seq<char>) {
    if s.len() > 0 && !is_space_char(s[0]) {
        lemma_word_len(s);
    }
}

/// The tokens of an already-lowercased text: punctuation stripped, then split
/// on whitespace.
pub open spec fn tokens_of_folded(s: Seq<char>) -> Seq<Seq<char>> {
    split_spaces(strip_seq(s))
}

/// What `str::to_lowercase` returns; the result depends on the characters
/// alone.
pub uninterp spec fn lower_of(s: Seq<char>) -> Seq<char>;

/// The tokens of a raw text field: lowercased, punctuation stripped, split on
/// whitespace.
pub open spec fn tokens_of_text(s: Seq<char>) -> Seq<Seq<char>> {
    tokens_of_folded(lower_of(s))
}

/// Relies on `str::to_lowercase`: returns the lowercase equivalent of the
/// string, a function of the characters alone.
#[verifier::external_body]
pub(crate) fn lowercase(s: &str) -> (r: String)
    ensures
        r@ == lower_of(s@),
{
    s.to_lowercase()
}

/// Removes every punctuation character.
pub fn strip_chars(s: &str) -> (out: Vec<char>)
    ensures
        out@ == strip_seq(s@),
{
    let n = s.unicode_len();
    let mut out: Vec<char> = Vec::new();
    let mut i: usize = 0;
    while i < n
        invariant
            i <= n,
            n == s@.len(),
            out@ == strip_seq(s@.take(i as int)),
        decreases n - i,
    {
        let c = s.get_char(i);
        proof {
            assert(s@.take(i + 1).drop_last() =~= s@.take(i as int));
            assert(s@.take(i + 1).last() == s@[i as int]);
        }
        if !is_strip(c) {
            out.push(c);
        }
        i += 1;
    }
    proof {
        assert(s@.take(n as int) =~= s@);
    }
    out
}

/// Splits on whitespace, returning each run as a string.
fn split_tokens(v: &Vec<char>) -> (toks: Vec<String>)
    ensures
        toks.deep_view() == split_spaces(v@),
{
    let n = v.len();
    let mut toks: Vec<String> = Vec::new();
    let mut i: usize = 0;
    proof {
        assert(v@.skip(0) =~= v@);
    }
    while i < n
        invariant
            i <= n,
            n == v@.len(),
            toks.deep_view() + split_spaces(v@.skip(i as int)) == split_spaces(v@),
        decreases n - i,
    {
        if is_space(v[i]) {
            proof {
                assert(v@.skip(i as int).drop_first() =~= v@.skip(i + 1));
            }
            i += 1;
        } else {
            let ghost whole = v@.skip(i as int);
            let start = i;
            let mut word: Vec<char> = Vec::new();
            while i < n && !is_space(v[i])
                invariant
                    start <= i <= n,
                    n == v@.len(),
                    word@ == v@.subrange(start as int, i as int),
                    forall|k: int| start <= k < i ==> !is_space_char(#[trigger] v@[k]),
                decreases n - i,
            {
                word.push(v[i]);
                proof {
                    assert(v@.subrange(start as int, i as int).push(v@[i as int]) =~= v@.subrange(
                        start as int,
                        i + 1,
                    ));
                }
                i += 1;
            }
            proof {
                lemma_word_len(whole);
                let w = (i - start) as int;
                assert(forall|k: int|
                    0 <= k < whole.len() ==> whole[k] == #[trigger] v@[start + k]);
                assert(forall|k: int| 0 <= k < w ==> !is_space_char(#[trigger] whole[k]));
                if i < n {
                    assert(is_space_char(whole[w]));
                }
                // pin word_len(whole) == w by the characterization
                if word_len(whole) < w {
                    assert(is_space_char(whole[word_len(whole) as int]));
                    assert(false);
                }
                if word_len(whole) > w {
                    assert(w < whole.len());
                    assert(!is_space_char(whole[w]));
                    assert(false);
                }
                assert(whole.take(w) =~= word@);
                assert(whole.skip(w) =~= v@.skip(i as int));
                assert(split_spaces(whole) == seq![word@] + split_spaces(v@.skip(i as int)));
            }
            let t = string_of_chars(&word);
            toks.push(t);
            proof {
                assert(toks.deep_view() =~= toks.deep_view().subrange(
                    0,
                    toks.deep_view().len() - 1,
                ).push(word@));
                assert(toks.deep_view() + split_spaces(v@.skip(i as int)) =~= split_spaces(v@));
            }
        }
    }
    proof {
        assert(v@.skip(n as int) =~= Seq::<char>::empty());
        assert(toks.deep_view() + split_spaces(v@.skip(n as int)) =~= toks.deep_view());
    }
    toks
}

/// Every character that survives the strip is a non-punctuation character of
/// the input.
pub proof fn lemma_strip_seq_chars(s: Seq<char>)
    ensures
        forall|j: int|
            0 <= j < strip_seq(s).len() ==> !is_strip_char(#[trigger] strip_seq(s)[j])
                && s.contains(strip_seq(s)[j]),
    decreases s.len(),
{
    if s.len() > 0 {
        lemma_strip_seq_chars(s.drop_last());
        let rest = strip_seq(s.drop_last());
        assert forall|j: int| 0 <= j < strip_seq(s).len() implies !is_strip_char(
            strip_seq(s)[j],
        ) && s.contains(strip_seq(s)[j]) by {
            if j < rest.len() {
                assert(strip_seq(s)[j] == rest[j]);
                assert(!is_strip_char(rest[j]));
                let k = choose|k: int|
                    0 <= k < s.drop_last().len() && s.drop_last()[k] == rest[j];
                assert(s[k] == strip_seq(s)[j]);
            } else {
                assert(strip_seq(s)[j] == s.last());
                assert(s[s.len() - 1] == strip_seq(s)[j]);
            }
        }
    }
}

/// Every split token is a nonempty run of non-whitespace characters of the
/// input.
pub proof fn lemma_split_spaces_wf(s: Seq<char>)
    ensures
        forall|i: int| 0 <= i < split_spaces(s).len() ==> (#[trigger] split_spaces(s)[i]).len()
            > 0,
        forall|i: int, j: int|
            #![trigger split_spaces(s)[i][j]]
            0 <= i < split_spaces(s).len() && 0 <= j < split_spaces(s)[i].len()
                ==> !is_space_char(split_spaces(s)[i][j]) && s.contains(split_spaces(s)[i][j]),
    decreases s.len(),
{
    if s.len() == 0 {
    } else if is_space_char(s[0]) {
        lemma_split_spaces_wf(s.drop_first());
        assert forall|i: int| 0 <= i < split_spaces(s).len() implies (#[trigger] split_spaces(
            s,
        )[i]).len() > 0 by {
            assert(split_spaces(s)[i] == split_spaces(s.drop_first())[i]);
        }
        assert forall|i: int, j: int|
            #![trigger split_spaces(s)[i][j]]
            0 <= i < split_spaces(s).len() && 0 <= j < split_spaces(s)[i].len()
                implies !is_space_char(split_spaces(s)[i][j]) && s.contains(
            split_spaces(s)[i][j],
        ) by {
            let t = s.drop_first();
            assert(split_spaces(s)[i] == split_spaces(t)[i]);
            let k = choose|k: int| 0 <= k < t.len() && t[k] == split_spaces(t)[i][j];
            assert(s[k + 1] == split_spaces(s)[i][j]);
        }
    } else {
        lemma_word_len(s);
        let w = word_len(s) as int;
        lemma_split_spaces_wf(s.skip(w));
        assert forall|i: int, j: int|
            #![trigger split_spaces(s)[i][j]]
            0 <= i < split_spaces(s).len() && 0 <= j < split_spaces(s)[i].len()
                implies !is_space_char(split_spaces(s)[i][j]) && s.contains(
            split_spaces(s)[i][j],
        ) by {
            if i == 0 {
                assert(split_spaces(s)[0] == s.take(w));
                assert(s.take(w)[j] == s[j]);
                assert(!is_space_char(s[j]));
            } else {
                let t = s.skip(w);
                assert(split_spaces(s)[i] == split_spaces(t)[i - 1]);
                let k = choose|k: int| 0 <= k < t.len() && t[k] == split_spaces(t)[i - 1][j];
                assert(s[k + w] == split_spaces(s)[i][j]);
            }
        }
        assert forall|i: int| 0 <= i < split_spaces(s).len() implies (#[trigger] split_spaces(
            s,
        )[i]).len() > 0 by {
            if i > 0 {
                assert(split_spaces(s)[i] == split_spaces(s.skip(w))[i - 1]);
            }
        }
    }
}

/// Tokens of normalized text hold no character from the punctuation removal
/// set, no whitespace, and are never empty.
pub proof fn lemma_tokens_clean(s: Seq<char>)
    ensures
        forall|i: int| 0 <= i < tokens_of_folded(s).len() ==> (#[trigger] tokens_of_folded(
            s,
        )[i]).len() > 0,
        forall|i: int, j: int|
            #![trigger tokens_of_folded(s)[i][j]]
            0 <= i < tokens_of_folded(s).len() && 0 <= j < tokens_of_folded(s)[i].len()
                ==> !is_space_char(tokens_of_folded(s)[i][j]) && !is_strip_char(
                tokens_of_folded(s)[i][j],
            ),
{
    lemma_strip_seq_chars(s);
    lemma_split_spaces_wf(strip_seq(s));
    assert forall|i: int, j: int|
        #![trigger tokens_of_folded(s)[i][j]]
        0 <= i < tokens_of_folded(s).len() && 0 <= j < tokens_of_folded(s)[i].len()
            implies !is_space_char(tokens_of_folded(s)[i][j]) && !is_strip_char(
        tokens_of_folded(s)[i][j],
    ) by {
        let c = tokens_of_folded(s)[i][j];
        assert(strip_seq(s).contains(c));
        let k = choose|k: int| 0 <= k < strip_seq(s).len() && strip_seq(s)[k] == c;
        assert(!is_strip_char(strip_seq(s)[k]));
    }
}

/// Stripping leaves a punctuation-free sequence unchanged.
pub proof fn lemma_strip_seq_id(t: Seq<char>)
    requires
        forall|j: int| 0 <= j < t.len() ==> !is_strip_char(#[trigger] t[j]),
    ensures
        strip_seq(t) == t,
    decreases t.len(),
{
    if t.len() > 0 {
        lemma_strip_seq_id(t.drop_last());
        assert(strip_seq(t) =~= t);
    }
}

/// Splitting a nonempty whitespace-free sequence yields that one token.
pub proof fn lemma_split_single_word(t: Seq<char>)
    requires
        t.len() > 0,
        forall|j: int| 0 <= j < t.len() ==> !is_space_char(#[trigger] t[j]),
    ensures
        split_spaces(t) == seq![t],
{
    lemma_word_len(t);
    assert(!is_space_char(t[0]));
    assert(word_len(t) == t.len());
    assert(t.take(t.len() as int) =~= t);
    assert(t.skip(t.len() as int) =~= Seq::<char>::empty());
    assert(split_spaces(t) == seq![t.take(word_len(t) as int)] + split_spaces(
        t.skip(word_len(t) as int),
    ));
    assert(split_spaces(Seq::<char>::empty()) == Seq::<Seq<char>>::empty());
    assert(split_spaces(t) =~= seq![t]);
}

/// Normalizing is idempotent at the token level: tokenizing any produced
/// token again yields exactly that token.
pub proof fn lemma_tokenize_token_idempotent(s: Seq<char>, i: int)
    requires
        0 <= i < tokens_of_folded(s).len(),
    ensures
        tokens_of_folded(tokens_of_folded(s)[i]) == seq![tokens_of_folded(s)[i]],
{
    lemma_tokens_clean(s);
    let t = tokens_of_folded(s)[i];
    lemma_strip_seq_id(t);
    lemma_split_single_word(t);
}

/// Tokens of raw text are as clean as tokens of folded text: no character
/// of the punctuation removal set, no whitespace, never empty.
pub proof fn lemma_text_tokens_clean(s: Seq<char>)
    ensures
        forall|i: int| 0 <= i < tokens_of_text(s).len() ==> (#[trigger] tokens_of_text(
            s,
        )[i]).len() > 0,
        forall|i: int, j: int|
            #![trigger tokens_of_text(s)[i][j]]
            0 <= i < tokens_of_text(s).len() && 0 <= j < tokens_of_text(s)[i].len()
                ==> !is_space_char(tokens_of_text(s)[i][j]) && !is_strip_char(
                tokens_of_text(s)[i][j],
            ),
{
    lemma_tokens_clean(lower_of(s));
}

/// Tokenizes text that is already lowercase: strips punctuation, splits on
/// whitespace.
pub fn tokenize_folded(s: &str) -> (toks: Vec<String>)
    ensures
        toks.deep_view() == tokens_of_folded(s@),
{
    let stripped = strip_chars(s);
    split_tokens(&stripped)
}

/// Tokenizes a raw text field: lowercases, strips punctuation, splits on
/// whitespace.
pub fn tokenize(s: &str) -> (toks: Vec<String>)
    ensures
        toks.deep_view() == tokens_of_text(s@),
{
    let lowered = lowercase(s);
    tokenize_folded(lowered.as_str())
}

} // verus!
