//! The query engine: TF-IDF scoring with a character-similarity fallback.
//!
//! Each candidate record first receives a lexical score: for every query
//! token and each of the two fields, term frequency times inverse document
//! frequency, weighted 0.6 for the title and 0.4 for the alt text, in
//! millionths. Records without an informative lexical match fall back to a
//! character-histogram cosine similarity. Every result carries its tier and
//! a positive higher-is-better score; lexical candidates come before all
//! fuzzy ones, each tier descending by score, ties broken by title.

use crate::comic::{df_alt, df_title, doc_wf, Comic, ComicFrequency, ComicIndex, ComicIndexView, ComicView, Document};
use crate::numeric::{
    dot, isqrt, lemma_cauchy_schwarz, lemma_sqrt_floor, lemma_sqrt_square, mlog10, mlog10_milli,
    sqrt_floor, HIST_CAP,
};
use crate::strutil::{seq_lt, str_lt};
use crate::tokenize::{lower_of, lowercase, strip_seq, tokenize, tokens_of_text};
use crate::tokenmap::{lookup, lookup_nat};
use vstd::pervasive::VecAdditionalExecFns;
use vstd::prelude::*;

verus! {

/// Number of histogram buckets.
pub const HIST_LEN: usize = 96;

/// The base-36 digit value of a character, if it has one.
pub open spec fn base36_of(c: char) -> Option<u32> {
    let u = c as u32;
    if 0x30 <= u && u <= 0x39 {
        Some((u - 0x30) as u32)
    } else if 0x61 <= u && u <= 0x7A {
        Some((u - 0x61 + 10) as u32)
    } else if 0x41 <= u && u <= 0x5A {
        Some((u - 0x41 + 10) as u32)
    } else {
        None
    }
}

/// Decides `base36_of`.
pub fn base36_val(c: char) -> (r: Option<u32>)
    ensures
        r == base36_of(c),
{
    let u = c as u32;
    if 0x30 <= u && u <= 0x39 {
        Some(u - 0x30)
    } else if 0x61 <= u && u <= 0x7A {
        Some(u - 0x61 + 10)
    } else if 0x41 <= u && u <= 0x5A {
        Some(u - 0x41 + 10)
    } else {
        None
    }
}

/// A count one higher, saturating at the bucket ceiling.
pub open spec fn sat_inc(v: u64) -> u64 {
    if v >= HIST_CAP {
        v
    } else {
        (v + 1) as u64
    }
}

/// The histogram after counting one character.
pub open spec fn bucket_add(h: Seq<u64>, c: char) -> Seq<u64> {
    match base36_of(c) {
        Some(d) => {
            let i = (d % 96) as int;
            h.update(i, sat_inc(h[i]))
        },
        None => h,
    }
}

/// The 96-bucket character histogram of a text: each character with a
/// base-36 digit value contributes to the bucket of that value modulo 96;
/// other characters contribute nothing. Buckets saturate at a large ceiling
/// so that all later arithmetic stays exact in 128 bits.
pub open spec fn hist_of(s: Seq<char>) -> Seq<u64>
    decreases s.len(),
{
    if s.len() == 0 {
        Seq::new(96, |i: int| 0u64)
    } else {
        bucket_add(hist_of(s.drop_last()), s.last())
    }
}

/// Histograms have 96 buckets, each at most the ceiling.
pub proof fn lemma_hist_wf(s: Seq<char>)
    ensures
        hist_of(s).len() == 96,
        forall|i: int| 0 <= i < 96 ==> #[trigger] hist_of(s)[i] <= HIST_CAP,
    decreases s.len(),
{
    if s.len() > 0 {
        lemma_hist_wf(s.drop_last());
    }
}

/// Computes the character histogram of a character sequence.
pub fn vectorize_chars(v: &Vec<char>) -> (h: Vec<u64>)
    ensures
        h@ == hist_of(v@),
{
    let mut h: Vec<u64> = Vec::new();
    let mut j: usize = 0;
    while j < HIST_LEN
        invariant
            j <= 96,
            h@.len() == j,
            forall|i: int| 0 <= i < j ==> #[trigger] h@[i] == 0u64,
        decreases 96 - j,
    {
        h.push(0);
        j += 1;
    }
    proof {
        assert(h@ =~= hist_of(Seq::<char>::empty()));
        assert(v@.take(0) =~= Seq::<char>::empty());
    }
    let n = v.len();
    let mut i: usize = 0;
    while i < n
        invariant
            i <= n,
            n == v@.len(),
            h@ == hist_of(v@.take(i as int)),
        decreases n - i,
    {
        proof {
            lemma_hist_wf(v@.take(i as int));
            assert(v@.take(i + 1).drop_last() =~= v@.take(i as int));
            assert(v@.take(i + 1).last() == v@[i as int]);
        }
        match base36_val(v[i]) {
            Some(d) => {
                let idx = (d % 96) as usize;
                let cur = h[idx];
                if cur < HIST_CAP {
                    h.set(idx, cur + 1);
                } else {
                    proof {
                        assert(h@ =~= h@.update(idx as int, sat_inc(h@[idx as int])));
                    }
                }
            },
            None => {},
        }
        i += 1;
    }
    proof {
        assert(v@.take(n as int) =~= v@);
    }
    h
}

/// Computes the character histogram of a string.
pub fn vectorize_string(s: &str) -> (h: Vec<u64>)
    ensures
        h@ == hist_of(s@),
{
    let n = s.unicode_len();
    let mut chars: Vec<char> = Vec::new();
    let mut i: usize = 0;
    while i < n
        invariant
            i <= n,
            n == s@.len(),
            chars@ == s@.take(i as int),
        decreases n - i,
    {
        chars.push(s.get_char(i));
        proof {
            assert(s@.take(i as int).push(s@[i as int]) =~= s@.take(i + 1));
        }
        i += 1;
    }
    proof {
        assert(s@.take(n as int) =~= s@);
    }
    vectorize_chars(&chars)
}

/// Dot product of two histograms.
fn dot_hist(a: &Vec<u64>, b: &Vec<u64>) -> (r: u64)
    requires
        a@.len() == b@.len(),
        a@.len() <= 96,
        forall|i: int| 0 <= i < a@.len() ==> #[trigger] a@[i] <= HIST_CAP,
        forall|i: int| 0 <= i < b@.len() ==> #[trigger] b@[i] <= HIST_CAP,
    ensures
        r as int == dot(a@, b@),
        r as int <= 96 * ((HIST_CAP as int) * (HIST_CAP as int)),
{
    let n = a.len();
    let mut acc: u64 = 0;
    let mut i: usize = 0;
    proof {
        assert(a@.take(0) =~= Seq::<u64>::empty());
        assert(b@.take(0) =~= Seq::<u64>::empty());
    }
    while i < n
        invariant
            i <= n,
            n == a@.len(),
            n == b@.len(),
            n <= 96,
            forall|k: int| 0 <= k < a@.len() ==> #[trigger] a@[k] <= HIST_CAP,
            forall|k: int| 0 <= k < b@.len() ==> #[trigger] b@[k] <= HIST_CAP,
            acc as int == dot(a@.take(i as int), b@.take(i as int)),
            acc as int <= (i as int) * ((HIST_CAP as int) * (HIST_CAP as int)),
        decreases n - i,
    {
        proof {
            assert(a@.take(i + 1).drop_last() =~= a@.take(i as int));
            assert(b@.take(i + 1).drop_last() =~= b@.take(i as int));
            assert((a@[i as int] as int) * (b@[i as int] as int) <= (HIST_CAP as int) * (
            HIST_CAP as int) && 0 <= (a@[i as int] as int) * (b@[i as int] as int))
                by (nonlinear_arith)
                requires
                    0 <= (a@[i as int] as int) && (a@[i as int] as int) <= HIST_CAP as int,
                    0 <= (b@[i as int] as int) && (b@[i as int] as int) <= HIST_CAP as int,
            ;
            assert((i as int) * ((HIST_CAP as int) * (HIST_CAP as int)) + (HIST_CAP as int) * (
            HIST_CAP as int) == (i as int + 1) * ((HIST_CAP as int) * (HIST_CAP as int)))
                by (nonlinear_arith);
        }
        acc = acc + a[i] * b[i];
        i += 1;
    }
    proof {
        assert(a@.take(n as int) =~= a@);
        assert(b@.take(n as int) =~= b@);
        assert(acc as int <= 96 * ((HIST_CAP as int) * (HIST_CAP as int))) by (nonlinear_arith)
            requires
                acc as int <= (n as int) * ((HIST_CAP as int) * (HIST_CAP as int)),
                0 <= (n as int),
                (n as int) <= 96,
                0 <= (HIST_CAP as int) * (HIST_CAP as int),
        ;
    }
    acc
}

/// Cosine similarity of two histograms in millionths: the scaled dot
/// product over the integer square root of the norms' product, the root
/// taken at millionths scale so the division honors that precision; zero
/// when either norm is zero.
pub open spec fn cos_micro(a: Seq<u64>, b: Seq<u64>) -> int {
    let na = dot(a, a);
    let nb = dot(b, b);
    if na <= 0 || nb <= 0 {
        0
    } else {
        (dot(a, b) * 1000000000000) / (sqrt_floor((na * nb * 1000000000000) as nat) as int)
    }
}

/// A histogram's cosine similarity with itself is exactly one (in
/// millionths) whenever some bucket is nonzero.
pub proof fn lemma_cos_self(a: Seq<u64>)
    requires
        dot(a, a) > 0,
    ensures
        cos_micro(a, a) == 1000000,
{
    let na = dot(a, a);
    let root = na * 1000000;
    lemma_sqrt_square(root as nat);
    assert(sqrt_floor((na * na * 1000000000000) as nat) == root as nat) by {
        assert((na * na * 1000000000000) as nat == (root as nat) * (root as nat))
            by (nonlinear_arith)
            requires
                na > 0,
                root == na * 1000000,
        ;
    }
    assert((na * 1000000000000) / root == 1000000) by {
        vstd::arithmetic::div_mod::lemma_div_multiples_vanish(1000000, root);
        assert(na * 1000000000000 == root * 1000000) by (nonlinear_arith)
            requires
                root == na * 1000000,
        ;
    }
}

/// Computes `cos_micro` of two histograms.
pub fn cosine_similarity(a: &Vec<u64>, b: &Vec<u64>) -> (r: u64)
    requires
        a@.len() == 96,
        b@.len() == 96,
        forall|i: int| 0 <= i < a@.len() ==> #[trigger] a@[i] <= HIST_CAP,
        forall|i: int| 0 <= i < b@.len() ==> #[trigger] b@[i] <= HIST_CAP,
    ensures
        r as int == cos_micro(a@, b@),
        r <= 1000000,
{
    let d = dot_hist(a, b);
    let na = dot_hist(a, a);
    let nb = dot_hist(b, b);
    if na == 0 || nb == 0 {
        return 0;
    }
    proof {
        assert(96 * ((HIST_CAP as int) * (HIST_CAP as int)) == 6597019435104int)
            by (nonlinear_arith)
            requires
                HIST_CAP as int == 0x3FFFF,
        ;
        assert((na as int) * (nb as int) * 1000000000000 < 0x80000000000000000000000000000000int
            && 1000000000000 <= (na as int) * (nb as int) * 1000000000000 && (na as int) * (
        nb as int) <= 0x100000000000000000000000int) by (nonlinear_arith)
            requires
                1 <= (na as int),
                (na as int) <= 6597019435104int,
                1 <= (nb as int),
                (nb as int) <= 6597019435104int,
        ;
    }
    let n: u128 = (na as u128) * (nb as u128) * 1000000000000u128;
    let s = isqrt(n);
    let d6: u128 = (d as u128) * 1000000;
    proof {
        lemma_sqrt_floor(n as nat);
        if s == 0 {
            assert((0nat + 1) * (0nat + 1) == 1nat) by (nonlinear_arith);
            assert((n as int) < 1);
            assert(false);
        }
        // Cauchy-Schwarz bounds the scaled dot product by the scaled root
        lemma_cauchy_schwarz(a@, b@);
        assert((d6 as int) * (d6 as int) <= n as int) by (nonlinear_arith)
            requires
                (d as int) * (d as int) <= (na as int) * (nb as int),
                d6 as int == (d as int) * 1000000,
                n as int == (na as int) * (nb as int) * 1000000000000,
                0 <= (d as int),
        ;
        if (d6 as int) > (s as int) {
            assert((s as int + 1) * (s as int + 1) <= (d6 as int) * (d6 as int))
                by (nonlinear_arith)
                requires
                    (s as int) + 1 <= (d6 as int),
                    s as int >= 0,
            ;
            assert(false);
        }
    }
    let q = d6 / (s as u128);
    let rem = d6 % (s as u128);
    proof {
        assert(q <= 1 && rem < s && d6 as int == (q as int) * (s as int) + rem as int) by {
            assert(d6 as int == (s as int) * ((d6 as int) / (s as int)) + (d6 as int) % (
            s as int)) by {
                vstd::arithmetic::div_mod::lemma_fundamental_div_mod(d6 as int, s as int);
            }
            assert((d6 as int) / (s as int) <= 1) by (nonlinear_arith)
                requires
                    0 <= (d6 as int),
                    1 <= (s as int),
                    (d6 as int) <= (s as int),
            ;
            assert((q as int) * (s as int) == (s as int) * (q as int)) by (nonlinear_arith);
        }
        // splitting the scaled division at the quotient keeps it exact
        assert(((d6 as int) * 1000000) / (s as int) == (q as int) * 1000000 + ((rem as int)
            * 1000000) / (s as int)) by (nonlinear_arith)
            requires
                d6 as int == (q as int) * (s as int) + (rem as int),
                0 <= (rem as int) && (rem as int) < s as int,
                0 <= (q as int),
                1 <= (s as int),
        ;
        assert(((rem as int) * 1000000) / (s as int) < 1000000) by (nonlinear_arith)
            requires
                0 <= (rem as int) && (rem as int) < s as int,
                1 <= (s as int),
        ;
        assert((d as int) * 1000000000000 == (d6 as int) * 1000000) by (nonlinear_arith)
            requires
                d6 as int == (d as int) * 1000000,
        ;
    }
    let r = q * 1000000 + (rem * 1000000) / (s as u128);
    proof {
        if q == 1 {
            assert((q as int) * (s as int) == s as int) by (nonlinear_arith)
                requires
                    (q as int) == 1,
            ;
            assert(rem == 0);
            assert(((rem as int) * 1000000) / (s as int) == 0) by (nonlinear_arith)
                requires
                    (rem as int) == 0,
                    1 <= (s as int),
            ;
        }
    }
    r as u64
}

/// Effective document frequency of a token: the stored count, defaulting to
/// one for a token never seen in the corpus.
pub open spec fn df_of(m: Seq<(Seq<char>, u64)>, t: Seq<char>) -> int {
    if lookup_nat(m, t) == 0 {
        1
    } else {
        lookup_nat(m, t) as int
    }
}

/// Inverse document frequency of a token in thousandths of the logarithm,
/// floored at one thousandth for any token absent from some record: the
/// truncation to thousandths would otherwise report zero for a
/// near-universal token, so zero means present in every record, exactly.
pub open spec fn idf_milli(m: Seq<(Seq<char>, u64)>, t: Seq<char>, n: int) -> int {
    let p = mlog10(df_of(m, t), n);
    if df_of(m, t) < n && p == 0 {
        1
    } else {
        p
    }
}

/// One field's share of a token's score magnitude, in millionths:
/// term frequency (occurrences over field length) times the inverse document
/// frequency `p` (thousandths of the logarithm) times the field weight `w`
/// (thousandths). Zero for an empty field. Occurrence counts are clamped to
/// the field length; an index built by this library never exceeds it.
pub open spec fn term_mag(occ: nat, len: u64, p: int, w: int) -> int {
    if len == 0 {
        0
    } else {
        let m: int = if occ <= len {
            occ as int
        } else {
            len as int
        };
        (w * m * p) / (len as int)
    }
}

/// The lexical score magnitude of one record for a token list, in
/// millionths: the title term weighted 0.6 and the alt term weighted 0.4,
/// summed over all query tokens.
pub open spec fn lex_mag(
    toks: Seq<Seq<char>>,
    ix: ComicIndexView,
    fq: crate::comic::ComicFrequencyView,
    n: int,
) -> int
    decreases toks.len(),
{
    if toks.len() == 0 {
        0
    } else {
        let t = toks.last();
        lex_mag(toks.drop_last(), ix, fq, n) + term_mag(
            lookup_nat(ix.title_freq, t),
            ix.title_len,
            idf_milli(fq.title_freq, t, n),
            600,
        ) + term_mag(
            lookup_nat(ix.alt_freq, t),
            ix.alt_len,
            idf_milli(fq.alt_freq, t, n),
            400,
        )
    }
}

/// The scoring tier of a candidate: an informative lexical match, or a
/// record admitted by the character-similarity fallback. Every lexical
/// candidate orders ahead of every fuzzy one.
#[derive(Debug, Clone, Copy, PartialEq, Eq)]
pub enum Tier {
    Lexical,
    Fuzzy,
}

/// Order of the tiers: lexical before fuzzy.
pub open spec fn tier_rank(t: Tier) -> int {
    match t {
        Tier::Lexical => 0,
        Tier::Fuzzy => 1,
    }
}

/// Decides `tier_rank`.
pub fn tier_rank_of(t: &Tier) -> (r: u8)
    ensures
        r as int == tier_rank(*t),
{
    match t {
        Tier::Lexical => 0,
        Tier::Fuzzy => 1,
    }
}

/// The tier and score of one record, if it is a candidate; scores are
/// positive, higher is better. A lexical candidate scores its lexical
/// magnitude; a fuzzy candidate scores one eighth of its similarity sum,
/// rounded up so that a positive similarity always scores at least one.
pub open spec fn item_score(
    toks: Seq<Seq<char>>,
    qh: Seq<u64>,
    ix: ComicIndexView,
    fq: crate::comic::ComicFrequencyView,
    n: int,
) -> Option<(Tier, int)> {
    let mag = lex_mag(toks, ix, fq, n);
    if mag > 0 {
        Some((Tier::Lexical, mag))
    } else {
        let sim = cos_micro(qh, hist_of(ix.comic.title)) + cos_micro(qh, hist_of(ix.comic.alt));
        if sim > 0 {
            Some((Tier::Fuzzy, (sim + 7) / 8))
        } else {
            None
        }
    }
}

/// The candidates of a query, in corpus order, each with its score.
pub open spec fn scored_items(
    toks: Seq<Seq<char>>,
    qh: Seq<u64>,
    comics: Seq<ComicIndexView>,
    fq: crate::comic::ComicFrequencyView,
    n: int,
) -> Seq<(Tier, int, ComicView)>
    decreases comics.len(),
{
    if comics.len() == 0 {
        Seq::empty()
    } else {
        scored_items(toks, qh, comics.drop_last(), fq, n) + match item_score(
            toks,
            qh,
            comics.last(),
            fq,
            n,
        ) {
            Some(sc) => seq![(sc.0, sc.1, comics.last().comic)],
            None => Seq::<(Tier, int, ComicView)>::empty(),
        }
    }
}

/// Every candidate's score is strictly positive.
pub proof fn lemma_scored_items_positive(
    toks: Seq<Seq<char>>,
    qh: Seq<u64>,
    comics: Seq<ComicIndexView>,
    fq: crate::comic::ComicFrequencyView,
    n: int,
)
    ensures
        forall|j: int|
            0 <= j < scored_items(toks, qh, comics, fq, n).len() ==> (#[trigger] scored_items(
                toks,
                qh,
                comics,
                fq,
                n,
            )[j]).1 > 0,
    decreases comics.len(),
{
    if comics.len() > 0 {
        lemma_scored_items_positive(toks, qh, comics.drop_last(), fq, n);
        let pre = scored_items(toks, qh, comics.drop_last(), fq, n);
        let whole = scored_items(toks, qh, comics, fq, n);
        assert forall|j: int| 0 <= j < whole.len() implies (#[trigger] whole[j]).1 > 0 by {
            if j < pre.len() {
                assert(whole[j] == pre[j]);
                assert(pre[j].1 > 0);
            } else {
                let ix = comics.last();
                let mag = lex_mag(toks, ix, fq, n);
                if mag <= 0 {
                    let sim = cos_micro(qh, hist_of(ix.comic.title)) + cos_micro(
                        qh,
                        hist_of(ix.comic.alt),
                    );
                    assert(sim > 0);
                    assert((sim + 7) / 8 >= 1);
                }
            }
        }
    }
}

/// The mathematical content of a result list.
pub open spec fn results_view(rs: Seq<(Tier, i128, Comic)>) -> Seq<(Tier, int, ComicView)> {
    Seq::new(rs.len(), |i: int| (rs[i].0, rs[i].1 as int, rs[i].2@))
}

/// Result order: lexical before fuzzy, within a tier descending by score,
/// ties broken by title.
pub open spec fn pair_le(a: (Tier, int, ComicView), b: (Tier, int, ComicView)) -> bool {
    tier_rank(a.0) < tier_rank(b.0) || (tier_rank(a.0) == tier_rank(b.0) && (a.1 > b.1 || (a.1
        == b.1 && !seq_lt(b.2.title, a.2.title))))
}

/// `pair_le` is total.
pub proof fn lemma_pair_le_total(a: (Tier, int, ComicView), b: (Tier, int, ComicView))
    ensures
        pair_le(a, b) || pair_le(b, a),
{
    if tier_rank(a.0) == tier_rank(b.0) && a.1 == b.1 {
        crate::strutil::lemma_seq_lt_total(a.2.title, b.2.title);
        if seq_lt(a.2.title, b.2.title) && seq_lt(b.2.title, a.2.title) {
            crate::strutil::lemma_seq_lt_transitive(a.2.title, b.2.title, a.2.title);
            crate::strutil::lemma_seq_lt_irreflexive(a.2.title);
        }
        if a.2.title == b.2.title {
            crate::strutil::lemma_seq_lt_irreflexive(a.2.title);
        }
    }
}

/// `pair_le` is transitive.
pub proof fn lemma_pair_le_trans(
    a: (Tier, int, ComicView),
    b: (Tier, int, ComicView),
    c: (Tier, int, ComicView),
)
    requires
        pair_le(a, b),
        pair_le(b, c),
    ensures
        pair_le(a, c),
{
    if tier_rank(a.0) == tier_rank(b.0) && tier_rank(b.0) == tier_rank(c.0) && a.1 == b.1 && b.1
        == c.1 {
        if seq_lt(c.2.title, a.2.title) {
            crate::strutil::lemma_seq_lt_total(a.2.title, b.2.title);
            if seq_lt(a.2.title, b.2.title) {
                crate::strutil::lemma_seq_lt_transitive(c.2.title, a.2.title, b.2.title);
            } else {
                assert(a.2.title == b.2.title);
            }
        }
    }
}

/// Term frequency ingredients of a token in one field of a record: its
/// occurrence count there and the field's token total.
pub fn calculate_tf(word: &str, c: &ComicIndex, field: &crate::utils::Field) -> (r: (u64, u64))
    ensures
        r.0 as nat == lookup_nat(
            match field {
                crate::utils::Field::Title => c@.title_freq,
                crate::utils::Field::Alt => c@.alt_freq,
            },
            word@,
        ),
        r.1 == match field {
            crate::utils::Field::Title => c@.title_len,
            crate::utils::Field::Alt => c@.alt_len,
        },
{
    match field {
        crate::utils::Field::Title => {
            let occ = match c.title_freq.get(word) {
                Some(v) => v,
                None => 0,
            };
            (occ, c.title_len)
        },
        crate::utils::Field::Alt => {
            let occ = match c.alt_freq.get(word) {
                Some(v) => v,
                None => 0,
            };
            (occ, c.alt_len)
        },
    }
}

/// Every stored document frequency is at most `n`.
pub open spec fn df_within(fq: crate::comic::ComicFrequencyView, n: int) -> bool {
    &&& forall|t: Seq<char>| #[trigger] lookup_nat(fq.title_freq, t) <= n
    &&& forall|t: Seq<char>| #[trigger] lookup_nat(fq.alt_freq, t) <= n
}

/// The document-frequency map of one field.
pub open spec fn field_df_map(fq: crate::comic::ComicFrequencyView, field: crate::utils::Field) -> Seq<
    (Seq<char>, u64),
> {
    match field {
        crate::utils::Field::Title => fq.title_freq,
        crate::utils::Field::Alt => fq.alt_freq,
    }
}

/// Inverse document frequency of a token in one field, as thousandths of
/// the (nonnegative) logarithm of corpus size over document frequency,
/// floored at one thousandth for a token absent from some record.
/// The result is zero exactly when the token occurs in every record.
pub fn calculate_idf(word: &str, df: &ComicFrequency, field: &crate::utils::Field, length: u64) -> (
    p: u64)
    requires
        length >= 1,
        df_within(df@, length as int),
    ensures
        p as int == idf_milli(field_df_map(df@, *field), word@, length as int),
        p < 100000,
        p == 0 <==> df_of(field_df_map(df@, *field), word@) == length as int,
{
    let found = match field {
        crate::utils::Field::Title => df.title_freq.get(word),
        crate::utils::Field::Alt => df.alt_freq.get(word),
    };
    proof {
        assert(lookup_nat(df@.title_freq, word@) <= length);
        assert(lookup_nat(df@.alt_freq, word@) <= length);
    }
    let a: u64 = match found {
        Some(v) => if v == 0 {
            1
        } else {
            v
        },
        None => 1,
    };
    let p0 = mlog10_milli(a, length);
    if a < length && p0 == 0 {
        proof {
            crate::numeric::lemma_mlog10_self(length as int);
        }
        1
    } else {
        proof {
            if p0 == 0 {
                assert(a == length);
            } else {
                crate::numeric::lemma_mlog10_self(length as int);
                if a == length {
                    assert(p0 as int == mlog10(length as int, length as int));
                    assert(false);
                }
            }
        }
        p0
    }
}

/// Largest value one field term can contribute, in millionths.
proof fn lemma_term_mag_bound(occ: nat, len: u64, p: int, w: int)
    requires
        0 <= p < 100000,
        w == 600 || w == 400,
    ensures
        0 <= term_mag(occ, len, p, w),
        term_mag(occ, len, p, w) <= 60000000,
{
    if len != 0 {
        let m: int = if occ <= len {
            occ as int
        } else {
            len as int
        };
        assert(w * m * p <= (len as int) * (w * p) && 0 <= w * m * p) by (nonlinear_arith)
            requires
                0 <= m,
                m <= len as int,
                0 <= p,
                w == 600 || w == 400,
        ;
        vstd::arithmetic::div_mod::lemma_div_is_ordered(
            w * m * p,
            (len as int) * (w * p),
            len as int,
        );
        vstd::arithmetic::div_mod::lemma_div_multiples_vanish(w * p, len as int);
        assert(w * p <= 60000000) by (nonlinear_arith)
            requires
                0 <= p,
                p < 100000,
                w == 600 || w == 400,
        ;
        assert((w * m * p) / (len as int) >= 0) by (nonlinear_arith)
            requires
                0 <= w * m * p,
                len as int >= 1,
        ;
    }
}

/// Computes the lexical magnitude of one record.
fn lex_mag_of(toks: &Vec<String>, ix: &ComicIndex, fq: &ComicFrequency, n: u64) -> (mag: u128)
    requires
        n >= 1,
        df_within(fq@, n as int),
    ensures
        mag as int == lex_mag(toks.deep_view(), ix@, fq@, n as int),
        mag as int <= (toks@.len() as int) * 120000000,
{
    let m = toks.len();
    let mut acc: u128 = 0;
    let mut i: usize = 0;
    while i < m
        invariant
            i <= m,
            m == toks@.len(),
            toks.deep_view().len() == m,
            n >= 1,
            df_within(fq@, n as int),
            acc as int == lex_mag(toks.deep_view().take(i as int), ix@, fq@, n as int),
            acc as int <= (i as int) * 120000000,
        decreases m - i,
    {
        let tok = &toks[i];
        let ghost tv = toks.deep_view()[i as int];
        proof {
            assert(tv == toks@[i as int]@);
        }
        let tf_t = calculate_tf(tok.as_str(), ix, &crate::utils::Field::Title);
        let occ_t = tf_t.0;
        let len_t = tf_t.1;
        let p_t = calculate_idf(tok.as_str(), fq, &crate::utils::Field::Title, n);
        let tf_a = calculate_tf(tok.as_str(), ix, &crate::utils::Field::Alt);
        let occ_a = tf_a.0;
        let len_a = tf_a.1;
        let p_a = calculate_idf(tok.as_str(), fq, &crate::utils::Field::Alt, n);
        let mt = if occ_t <= len_t {
            occ_t
        } else {
            len_t
        };
        let ma = if occ_a <= len_a {
            occ_a
        } else {
            len_a
        };
        proof {
            assert(600 * (mt as int) * (p_t as int) < 0x10000000000000000000000000000int)
                by (nonlinear_arith)
                requires
                    0 <= (mt as int),
                    (mt as int) <= 0xFFFFFFFFFFFFFFFFu64 as int,
                    0 <= (p_t as int),
                    (p_t as int) < 100000,
            ;
            assert(400 * (ma as int) * (p_a as int) < 0x10000000000000000000000000000int)
                by (nonlinear_arith)
                requires
                    0 <= (ma as int),
                    (ma as int) <= 0xFFFFFFFFFFFFFFFFu64 as int,
                    0 <= (p_a as int),
                    (p_a as int) < 100000,
            ;
            lemma_term_mag_bound(occ_t as nat, len_t, p_t as int, 600);
            lemma_term_mag_bound(occ_a as nat, len_a, p_a as int, 400);
        }
        let term_t: u128 = if len_t == 0 {
            0
        } else {
            (600u128 * (mt as u128) * (p_t as u128)) / (len_t as u128)
        };
        let term_a: u128 = if len_a == 0 {
            0
        } else {
            (400u128 * (ma as u128) * (p_a as u128)) / (len_a as u128)
        };
        proof {
            assert(term_t as int == term_mag(occ_t as nat, len_t, p_t as int, 600));
            assert(term_a as int == term_mag(occ_a as nat, len_a, p_a as int, 400));
            assert(toks.deep_view().take(i + 1).drop_last() =~= toks.deep_view().take(i as int));
            assert(toks.deep_view().take(i + 1).last() == tv);
            assert((i as int) * 120000000 + 120000000 == (i as int + 1) * 120000000)
                by (nonlinear_arith);
        }
        acc = acc + term_t + term_a;
        i += 1;
    }
    proof {
        assert(toks.deep_view().take(m as int) =~= toks.deep_view());
    }
    acc
}


/// Decides `pair_le` on two results.
fn pair_le_exec(a: &(Tier, i128, Comic), b: &(Tier, i128, Comic)) -> (r: bool)
    ensures
        r == pair_le((a.0, a.1 as int, a.2@), (b.0, b.1 as int, b.2@)),
{
    let ra = tier_rank_of(&a.0);
    let rb = tier_rank_of(&b.0);
    if ra < rb {
        true
    } else if ra == rb {
        if a.1 > b.1 {
            true
        } else if a.1 == b.1 {
            !str_lt(b.2.title.as_str(), a.2.title.as_str())
        } else {
            false
        }
    } else {
        false
    }
}

/// The first `k` results stand in order.
pub open spec fn sorted_prefix(rs: Seq<(Tier, int, ComicView)>, k: int) -> bool {
    forall|x: int, y: int| 0 <= x < y < k ==> pair_le(#[trigger] rs[x], #[trigger] rs[y])
}

/// The first `k` results are all at most `xv`.
pub open spec fn all_le_before(
    rs: Seq<(Tier, int, ComicView)>,
    k: int,
    xv: (Tier, int, ComicView),
) -> bool {
    forall|t: int| 0 <= t < k ==> pair_le(#[trigger] rs[t], xv)
}

/// Sorts results: lexical before fuzzy, within a tier descending by score,
/// ties broken by title; the content is kept exactly.
fn sort_results(v: &mut Vec<(Tier, i128, Comic)>)
    ensures
        results_view(final(v)@).to_multiset() == results_view(old(v)@).to_multiset(),
        sorted_prefix(results_view(final(v)@), final(v)@.len() as int),
{
    broadcast use vstd::seq_lib::group_to_multiset_ensures;

    let n = v.len();
    let mut i: usize = 1;
    if n == 0 {
        return ;
    }
    while i < n
        invariant
            1 <= i <= n,
            n == v@.len(),
            results_view(v@).to_multiset() == results_view(old(v)@).to_multiset(),
            sorted_prefix(results_view(v@), i as int),
        decreases n - i,
    {
        let ghost pre = v@;
        let x = v.remove(i);
        let ghost xv = (x.0, x.1 as int, x.2@);
        let mut j: usize = 0;
        while j < i && pair_le_exec(&v[j], &x)
            invariant
                j <= i,
                i < pre.len(),
                v@ == pre.remove(i as int),
                all_le_before(results_view(v@), j as int, xv),
                xv == (x.0, x.1 as int, x.2@),
            decreases i - j,
        {
            proof {
                assert(pair_le(results_view(v@)[j as int], xv));
            }
            j += 1;
        }
        let ghost jj = j as int;
        v.insert(j, x);
        proof {
            broadcast use vstd::multiset::group_multiset_axioms;

            let now = v@;
            // content: removing then reinserting the same element keeps the
            // multiset
            let whole = results_view(pre);
            let rless = results_view(pre.remove(i as int));
            assert(rless =~= whole.remove(i as int));
            assert(results_view(now) =~= rless.insert(jj, xv));
            assert(whole[i as int] == xv);
            vstd::seq_lib::to_multiset_remove(whole, i as int);
            vstd::seq_lib::to_multiset_insert(whole.remove(i as int), jj, xv);
            assert(whole.contains(xv)) by {
                assert(whole[i as int] == xv);
            }
            vstd::seq_lib::to_multiset_contains(whole, xv);
            assert(whole.to_multiset().remove(xv).insert(xv) =~= whole.to_multiset());
            assert(results_view(now).to_multiset() =~= whole.to_multiset());
            // order: everything before the insertion point is at most x,
            // everything from it on is at least x
            let rnow = results_view(now);
            let rold = results_view(pre.remove(i as int));
            assert(forall|k: int| 0 <= k < jj ==> #[trigger] rnow[k] == rold[k]);
            assert(rnow[jj] == xv);
            assert(forall|k: int| jj < k < rnow.len() ==> #[trigger] rnow[k] == rold[k - 1]);
            assert(forall|k: int| 0 <= k < i ==> #[trigger] rold[k] == results_view(pre)[k]);
            assert forall|a2: int, b2: int| 0 <= a2 < b2 < i + 1 implies pair_le(
                #[trigger] rnow[a2],
                #[trigger] rnow[b2],
            ) by {
                if b2 < jj {
                } else if a2 < jj && b2 == jj {
                    assert(pair_le(rold[a2], xv));
                } else if a2 == jj {
                    if b2 > jj && jj < i {
                        let w = rold[b2 - 1];
                        assert(!pair_le(rold[jj], xv));
                        lemma_pair_le_total(rold[jj], xv);
                        assert(pair_le(xv, rold[jj]));
                        if b2 - 1 == jj {
                            assert(w == rold[jj]);
                        } else {
                            assert(pair_le(rold[jj], w));
                            lemma_pair_le_trans(xv, rold[jj], w);
                        }
                    }
                } else if a2 > jj && b2 > jj {
                    assert(rnow[a2] == rold[a2 - 1]);
                    assert(rnow[b2] == rold[b2 - 1]);
                } else {
                    assert(pair_le(rold[a2], xv));
                    let w = rold[b2 - 1];
                    if jj < i {
                        assert(!pair_le(rold[jj], xv));
                        lemma_pair_le_total(rold[jj], xv);
                        if b2 - 1 == jj {
                            lemma_pair_le_trans(rold[a2], xv, rold[jj]);
                        } else {
                            lemma_pair_le_trans(xv, rold[jj], w);
                            lemma_pair_le_trans(rold[a2], xv, w);
                        }
                    }
                }
            }
        }
        i += 1;
    }
}


/// Scores and ranks the corpus against a free-text query. Each candidate
/// comes back with its tier and a strictly positive higher-is-better score;
/// every lexical candidate stands before every fuzzy one, each tier
/// descending by score, ties broken by title. The candidate set is exactly
/// what the scoring model admits.
pub fn search(q: &str, doc: &Document) -> (res: Vec<(Tier, i128, Comic)>)
    requires
        doc_wf(doc@),
    ensures
        results_view(res@).to_multiset() == scored_items(
            tokens_of_text(q@),
            hist_of(strip_seq(lower_of(q@))),
            doc@.comics,
            doc@.frequency,
            doc@.comics.len() as int,
        ).to_multiset(),
        sorted_prefix(results_view(res@), res@.len() as int),
        res@.len() == scored_items(
            tokens_of_text(q@),
            hist_of(strip_seq(lower_of(q@))),
            doc@.comics,
            doc@.frequency,
            doc@.comics.len() as int,
        ).len(),
        forall|j: int| 0 <= j < res@.len() ==> (#[trigger] results_view(res@)[j]).1 > 0,
{
    let toks = tokenize(q);
    let lowered = lowercase(q);
    let stripped = crate::tokenize::strip_chars(lowered.as_str());
    let qh = vectorize_chars(&stripped);
    let ghost qtv = tokens_of_text(q@);
    let ghost qhv = hist_of(strip_seq(lower_of(q@)));
    let n = doc.comics.len();
    let mut cands: Vec<(Tier, i128, Comic)> = Vec::new();
    proof {
        assert(doc@.comics.take(0) =~= Seq::<ComicIndexView>::empty());
        assert(results_view(cands@) =~= scored_items(
            qtv,
            qhv,
            doc@.comics.take(0),
            doc@.frequency,
            n as int,
        ));
        lemma_hist_wf(strip_seq(lower_of(q@)));
    }
    let mut i: usize = 0;
    while i < n
        invariant
            i <= n,
            n == doc@.comics.len(),
            n == doc.comics@.len(),
            doc_wf(doc@),
            toks.deep_view() == qtv,
            qh@ == qhv,
            qhv.len() == 96,
            forall|k: int| 0 <= k < 96 ==> #[trigger] qhv[k] <= HIST_CAP,
            results_view(cands@) == scored_items(
                qtv,
                qhv,
                doc@.comics.take(i as int),
                doc@.frequency,
                n as int,
            ),
        decreases n - i,
    {
        let ix = &doc.comics[i];
        let ghost ixv = doc@.comics[i as int];
        proof {
            assert(ixv == ix@);
            assert forall|t: Seq<char>| #[trigger] lookup_nat(
                doc@.frequency.title_freq,
                t,
            ) <= n as int by {
                crate::comic::lemma_df_le_len(doc@.comics, t);
                assert(lookup_nat(doc@.frequency.title_freq, t) == df_title(doc@.comics, t));
            }
            assert forall|t: Seq<char>| #[trigger] lookup_nat(
                doc@.frequency.alt_freq,
                t,
            ) <= n as int by {
                crate::comic::lemma_df_le_len(doc@.comics, t);
                assert(lookup_nat(doc@.frequency.alt_freq, t) == df_alt(doc@.comics, t));
            }
            assert(df_within(doc@.frequency, n as int));
            assert(doc@.comics.take(i + 1).drop_last() =~= doc@.comics.take(i as int));
            assert(doc@.comics.take(i + 1).last() == ixv);
        }
        let mag = lex_mag_of(&toks, ix, &doc.frequency, n as u64);
        if mag > 0 {
            proof {
                assert(toks@.len() <= usize::MAX) by {
                    assert(toks.len() == toks@.len());
                }
                assert((toks@.len() as int) * 120000000 < 0x80000000000000000000000000000000int)
                    by (nonlinear_arith)
                    requires
                        0 <= (toks@.len() as int),
                        (toks@.len() as int) <= 0xFFFFFFFFFFFFFFFFu64 as int,
                ;
            }
            let sc: i128 = mag as i128;
            cands.push((Tier::Lexical, sc, ix.comic.clone()));
            proof {
                assert(results_view(cands@) =~= scored_items(
                    qtv,
                    qhv,
                    doc@.comics.take(i + 1),
                    doc@.frequency,
                    n as int,
                ));
            }
        } else {
            let th = vectorize_string(ix.comic.title.as_str());
            let ah = vectorize_string(ix.comic.alt.as_str());
            proof {
                lemma_hist_wf(ix.comic.title@);
                lemma_hist_wf(ix.comic.alt@);
            }
            let ct = cosine_similarity(&qh, &th);
            let ca = cosine_similarity(&qh, &ah);
            let sum = ct + ca;
            if sum > 0 {
                let sc: i128 = (((sum + 7) / 8)) as i128;
                cands.push((Tier::Fuzzy, sc, ix.comic.clone()));
                proof {
                    assert(results_view(cands@) =~= scored_items(
                        qtv,
                        qhv,
                        doc@.comics.take(i + 1),
                        doc@.frequency,
                        n as int,
                    ));
                }
            } else {
                proof {
                    assert(results_view(cands@) =~= scored_items(
                        qtv,
                        qhv,
                        doc@.comics.take(i + 1),
                        doc@.frequency,
                        n as int,
                    ));
                }
            }
        }
        i += 1;
    }
    proof {
        assert(doc@.comics.take(n as int) =~= doc@.comics);
    }
    let ghost scored = scored_items(qtv, qhv, doc@.comics, doc@.frequency, n as int);
    sort_results(&mut cands);
    proof {
        vstd::seq_lib::to_multiset_len(results_view(cands@));
        vstd::seq_lib::to_multiset_len(scored);
        // positivity carries from the candidate set through the permutation
        lemma_scored_items_positive(qtv, qhv, doc@.comics, doc@.frequency, n as int);
        let rv = results_view(cands@);
        assert forall|j: int| 0 <= j < cands@.len() implies (#[trigger] rv[j]).1 > 0 by {
            assert(rv.contains(rv[j]));
            vstd::seq_lib::to_multiset_contains(rv, rv[j]);
            vstd::seq_lib::to_multiset_contains(scored, rv[j]);
            assert(scored.contains(rv[j]));
            let w = choose|w: int| 0 <= w < scored.len() && scored[w] == rv[j];
            assert(scored[w].1 > 0);
        }
    }
    cands
}


/// An empty corpus admits no candidate, whatever the query.
pub proof fn lemma_empty_corpus_no_candidates(
    toks: Seq<Seq<char>>,
    qh: Seq<u64>,
    fq: crate::comic::ComicFrequencyView,
    n: int,
)
    ensures
        scored_items(toks, qh, Seq::empty(), fq, n) == Seq::<(Tier, int, ComicView)>::empty(),
{
}

/// A query without tokens gives every record a zero lexical score, so each
/// record is judged by the fuzzy tier alone: it is a candidate exactly when
/// its histogram-similarity sum is positive.
pub proof fn lemma_empty_query_fuzzy(
    toks: Seq<Seq<char>>,
    qh: Seq<u64>,
    ix: ComicIndexView,
    fq: crate::comic::ComicFrequencyView,
    n: int,
)
    requires
        toks.len() == 0,
    ensures
        lex_mag(toks, ix, fq, n) == 0,
        item_score(toks, qh, ix, fq, n) == ({
            let sim = cos_micro(qh, hist_of(ix.comic.title)) + cos_micro(
                qh,
                hist_of(ix.comic.alt),
            );
            if sim > 0 {
                Some((Tier::Fuzzy, (sim + 7) / 8))
            } else {
                None
            }
        }),
{
}

} // verus!
