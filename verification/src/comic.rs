//! The corpus data model and the indexer.
//!
//! A `Comic` is one raw record; a `ComicIndex` is its derived per-field
//! term-frequency data; `ComicFrequency` is the corpus-wide per-field
//! document-frequency aggregate; a `Document` is the ordered collection of
//! indexed records together with that aggregate, and the unit of persistence.
//!
//! Invariant maintained by every mutation: for each field and token, the
//! aggregate holds exactly the number of indexed records whose field contains
//! the token at least once.

use crate::strutil::str_eq;
use crate::tokenize::tokens_of_text;
use crate::utils::Field;
use crate::tokenmap::{
    add_one, bump, counts_seq, entries_wf, keys_contain, lemma_bump_lookup, lemma_counts_seq,
    lemma_lookup_some_iff, lookup, lookup_nat, occ_count, TokenMap,
};
use crate::tokenmap::count_tokens;
use vstd::prelude::*;

verus! {

/// One raw corpus record.
#[derive(Debug, PartialEq, Eq)]
pub struct Comic {
    pub month: String,
    pub num: u16,
    pub year: String,
    pub day: String,
    pub title: String,
    pub alt: String,
    pub img: String,
    pub transcript: String,
}

/// The mathematical content of a `Comic`.
pub ghost struct ComicView {
    pub month: Seq<char>,
    pub num: u16,
    pub year: Seq<char>,
    pub day: Seq<char>,
    pub title: Seq<char>,
    pub alt: Seq<char>,
    pub img: Seq<char>,
    pub transcript: Seq<char>,
}

impl View for Comic {
    type V = ComicView;

    open spec fn view(&self) -> ComicView {
        ComicView {
            month: self.month@,
            num: self.num,
            year: self.year@,
            day: self.day@,
            title: self.title@,
            alt: self.alt@,
            img: self.img@,
            transcript: self.transcript@,
        }
    }
}

impl Clone for Comic {
    /// A clone carries the same content.
    fn clone(&self) -> (res: Comic)
        ensures
            res@ == self@,
    {
        Comic {
            month: self.month.clone(),
            num: self.num,
            year: self.year.clone(),
            day: self.day.clone(),
            title: self.title.clone(),
            alt: self.alt.clone(),
            img: self.img.clone(),
            transcript: self.transcript.clone(),
        }
    }
}

/// Per-record index: token counts and token totals for the two indexed
/// fields, plus the record itself.
#[derive(Debug, PartialEq, Eq)]
pub struct ComicIndex {
    pub title_freq: TokenMap,
    pub title_len: u64,
    pub alt_freq: TokenMap,
    pub alt_len: u64,
    pub comic: Comic,
}

/// The mathematical content of a `ComicIndex`.
pub ghost struct ComicIndexView {
    pub title_freq: Seq<(Seq<char>, u64)>,
    pub title_len: u64,
    pub alt_freq: Seq<(Seq<char>, u64)>,
    pub alt_len: u64,
    pub comic: ComicView,
}

impl View for ComicIndex {
    type V = ComicIndexView;

    open spec fn view(&self) -> ComicIndexView {
        ComicIndexView {
            title_freq: self.title_freq@,
            title_len: self.title_len,
            alt_freq: self.alt_freq@,
            alt_len: self.alt_len,
            comic: self.comic@,
        }
    }
}

/// Corpus-wide per-field document-frequency aggregate.
#[derive(Debug, PartialEq, Eq)]
pub struct ComicFrequency {
    pub alt_freq: TokenMap,
    pub title_freq: TokenMap,
}

/// The mathematical content of a `ComicFrequency`.
pub ghost struct ComicFrequencyView {
    pub alt_freq: Seq<(Seq<char>, u64)>,
    pub title_freq: Seq<(Seq<char>, u64)>,
}

impl View for ComicFrequency {
    type V = ComicFrequencyView;

    open spec fn view(&self) -> ComicFrequencyView {
        ComicFrequencyView { alt_freq: self.alt_freq@, title_freq: self.title_freq@ }
    }
}

/// The corpus: indexed records in insertion order plus the aggregate.
#[derive(Debug, PartialEq, Eq)]
pub struct Document {
    pub comics: Vec<ComicIndex>,
    pub frequency: ComicFrequency,
}

/// The mathematical content of a `Document`.
pub ghost struct DocumentView {
    pub comics: Seq<ComicIndexView>,
    pub frequency: ComicFrequencyView,
}

/// The content of a record list.
pub open spec fn comics_view(s: Seq<ComicIndex>) -> Seq<ComicIndexView> {
    Seq::new(s.len(), |i: int| s[i]@)
}

impl View for Document {
    type V = DocumentView;

    open spec fn view(&self) -> DocumentView {
        DocumentView { comics: comics_view(self.comics@), frequency: self.frequency@ }
    }
}

/// The index a record must carry: exact token counts and totals of its two
/// fields under the normalization rule.
pub open spec fn indexed_of(c: ComicView) -> ComicIndexView {
    ComicIndexView {
        title_freq: counts_seq(tokens_of_text(c.title)),
        title_len: tokens_of_text(c.title).len() as u64,
        alt_freq: counts_seq(tokens_of_text(c.alt)),
        alt_len: tokens_of_text(c.alt).len() as u64,
        comic: c,
    }
}

/// Both token maps of an index have unique keys.
pub open spec fn index_wf(ix: ComicIndexView) -> bool {
    entries_wf(ix.title_freq) && entries_wf(ix.alt_freq)
}

/// Number of records whose title contains the token.
pub open spec fn df_title(comics: Seq<ComicIndexView>, t: Seq<char>) -> nat
    decreases comics.len(),
{
    if comics.len() == 0 {
        0
    } else {
        df_title(comics.drop_last(), t) + if keys_contain(comics.last().title_freq, t) {
            1nat
        } else {
            0nat
        }
    }
}

/// Number of records whose alt text contains the token.
pub open spec fn df_alt(comics: Seq<ComicIndexView>, t: Seq<char>) -> nat
    decreases comics.len(),
{
    if comics.len() == 0 {
        0
    } else {
        df_alt(comics.drop_last(), t) + if keys_contain(comics.last().alt_freq, t) {
            1nat
        } else {
            0nat
        }
    }
}

/// A document frequency never exceeds the number of records.
pub proof fn lemma_df_le_len(comics: Seq<ComicIndexView>, t: Seq<char>)
    ensures
        df_title(comics, t) <= comics.len(),
        df_alt(comics, t) <= comics.len(),
    decreases comics.len(),
{
    if comics.len() > 0 {
        lemma_df_le_len(comics.drop_last(), t);
    }
}

/// The corpus invariant: token maps are well formed and, for every field and
/// token, the aggregate counts exactly the records whose field holds the
/// token.
pub open spec fn doc_wf(d: DocumentView) -> bool {
    &&& entries_wf(d.frequency.title_freq)
    &&& entries_wf(d.frequency.alt_freq)
    &&& forall|i: int| 0 <= i < d.comics.len() ==> index_wf(#[trigger] d.comics[i])
    &&& forall|t: Seq<char>| #[trigger] lookup_nat(d.frequency.title_freq, t) == df_title(
        d.comics,
        t,
    )
    &&& forall|t: Seq<char>| #[trigger] lookup_nat(d.frequency.alt_freq, t) == df_alt(
        d.comics,
        t,
    )
}

/// The aggregate after one bump for each key of `ks`, in entry order.
pub open spec fn bump_keys(s: Seq<(Seq<char>, u64)>, ks: Seq<(Seq<char>, u64)>) -> Seq<
    (Seq<char>, u64),
>
    decreases ks.len(),
{
    if ks.len() == 0 {
        s
    } else {
        bump(bump_keys(s, ks.drop_last()), ks.last().0)
    }
}

/// Effect of `bump_keys` on one token: a key of `ks` counts one more, any
/// other token is untouched; keys stay unique.
pub proof fn lemma_bump_keys_lookup(
    s: Seq<(Seq<char>, u64)>,
    ks: Seq<(Seq<char>, u64)>,
    t: Seq<char>,
)
    requires
        entries_wf(s),
        entries_wf(ks),
    ensures
        entries_wf(bump_keys(s, ks)),
        keys_contain(ks, t) ==> lookup(bump_keys(s, ks), t) == match lookup(s, t) {
            Some(c) => Some(add_one(c)),
            None => Some(1u64),
        },
        !keys_contain(ks, t) ==> lookup(bump_keys(s, ks), t) == lookup(s, t),
    decreases ks.len(),
{
    if ks.len() > 0 {
        let pre = ks.drop_last();
        let k0 = ks.last().0;
        assert(entries_wf(pre)) by {
            assert(forall|i: int| 0 <= i < pre.len() ==> pre[i] == #[trigger] ks[i]);
        }
        lemma_bump_keys_lookup(s, pre, t);
        lemma_bump_lookup(bump_keys(s, pre), k0);
        if t == k0 {
            // the last key cannot occur among the earlier keys
            assert(!keys_contain(pre, t)) by {
                if keys_contain(pre, t) {
                    let i = choose|i: int| 0 <= i < pre.len() && (#[trigger] pre[i]).0 == t;
                    assert(ks[i].0 == ks[ks.len() - 1].0);
                    assert(false);
                }
            }
            assert(keys_contain(ks, t)) by {
                assert(ks[ks.len() - 1].0 == t);
            }
        } else {
            if keys_contain(ks, t) {
                let i = choose|i: int| 0 <= i < ks.len() && (#[trigger] ks[i]).0 == t;
                assert(pre[i].0 == t);
                assert(keys_contain(pre, t));
            } else {
                assert(!keys_contain(pre, t)) by {
                    if keys_contain(pre, t) {
                        let i = choose|i: int|
                            0 <= i < pre.len() && (#[trigger] pre[i]).0 == t;
                        assert(ks[i].0 == t);
                    }
                }
            }
        }
    }
}

/// Bumps the aggregate once for every key of `src`.
fn bump_tokens(df: &mut TokenMap, src: &TokenMap)
    requires
        entries_wf(old(df)@),
        entries_wf(src@),
        forall|t: Seq<char>| #[trigger] lookup(old(df)@, t) matches Some(c) ==> c < u64::MAX,
    ensures
        final(df)@ == bump_keys(old(df)@, src@),
        entries_wf(final(df)@),
{
    let n = src.entries.len();
    let mut i: usize = 0;
    proof {
        assert(src@.take(0) =~= Seq::<(Seq<char>, u64)>::empty());
    }
    while i < n
        invariant
            i <= n,
            n == src@.len(),
            entries_wf(src@),
            entries_wf(old(df)@),
            forall|t: Seq<char>| #[trigger] lookup(old(df)@, t) matches Some(c) ==> c
                < u64::MAX,
            df@ == bump_keys(old(df)@, src@.take(i as int)),
            entries_wf(df@),
        decreases n - i,
    {
        let ghost pre = src@.take(i as int);
        let ghost key = src@[i as int].0;
        proof {
            assert(entries_wf(pre)) by {
                assert(forall|a: int| 0 <= a < pre.len() ==> pre[a] == #[trigger] src@[a]);
            }
            // the key of entry i never occurs among the first i keys,
            // so its count in `df` is still the one from before the loop
            assert(!keys_contain(pre, key)) by {
                if keys_contain(pre, key) {
                    let a = choose|a: int| 0 <= a < pre.len() && (#[trigger] pre[a]).0 == key;
                    assert(src@[a].0 == src@[i as int].0);
                    assert(false);
                }
            }
            lemma_bump_keys_lookup(old(df)@, pre, key);
            assert(lookup(df@, key) == lookup(old(df)@, key));
            assert(src@.take(i + 1).drop_last() =~= pre);
            assert(src@.take(i + 1).last() == src@[i as int]);
        }
        df.increment(src.entries[i].token.as_str());
        proof {
            assert(src.entries@[i as int]@.0 == src@[i as int].0);
            assert(df@ == bump(bump_keys(old(df)@, pre), key));
        }
        i += 1;
    }
    proof {
        assert(src@.take(n as int) =~= src@);
    }
}

/// Turns one record into its index and folds its distinct tokens into the
/// aggregate: per field, each distinct token adds exactly 1 to the
/// document frequency, however often it repeats within the record.
pub fn index_comic(c: &Comic, df: &mut ComicFrequency) -> (ix: ComicIndex)
    requires
        entries_wf(old(df)@.title_freq),
        entries_wf(old(df)@.alt_freq),
        forall|t: Seq<char>| #[trigger] lookup(old(df)@.title_freq, t) matches Some(n) ==> n
            < u64::MAX,
        forall|t: Seq<char>| #[trigger] lookup(old(df)@.alt_freq, t) matches Some(n) ==> n
            < u64::MAX,
    ensures
        ix@ == indexed_of(c@),
        index_wf(ix@),
        final(df)@.title_freq == bump_keys(old(df)@.title_freq, ix@.title_freq),
        final(df)@.alt_freq == bump_keys(old(df)@.alt_freq, ix@.alt_freq),
        entries_wf(final(df)@.title_freq),
        entries_wf(final(df)@.alt_freq),
{
    let title_tokens = crate::tokenize::tokenize(c.title.as_str());
    let title_freq = count_tokens(&title_tokens);
    let alt_tokens = crate::tokenize::tokenize(c.alt.as_str());
    let alt_freq = count_tokens(&alt_tokens);
    bump_tokens(&mut df.title_freq, &title_freq);
    bump_tokens(&mut df.alt_freq, &alt_freq);
    let title_len = title_tokens.len();
    let alt_len = alt_tokens.len();
    ComicIndex {
        title_freq,
        title_len: title_len as u64,
        alt_freq,
        alt_len: alt_len as u64,
        comic: c.clone(),
    }
}

/// In an index the library builds, no token counts beyond its field's
/// token total: the occurrence clamp in the scoring model never bites.
pub proof fn lemma_index_counts_within(c: ComicView)
    requires
        tokens_of_text(c.title).len() <= u64::MAX,
        tokens_of_text(c.alt).len() <= u64::MAX,
    ensures
        forall|t: Seq<char>| #[trigger] lookup_nat(indexed_of(c).title_freq, t) <= indexed_of(
            c,
        ).title_len,
        forall|t: Seq<char>| #[trigger] lookup_nat(indexed_of(c).alt_freq, t) <= indexed_of(
            c,
        ).alt_len,
{
    lemma_counts_seq(tokens_of_text(c.title));
    lemma_counts_seq(tokens_of_text(c.alt));
    assert forall|t: Seq<char>| #[trigger] lookup_nat(
        indexed_of(c).title_freq,
        t,
    ) <= indexed_of(c).title_len by {
        crate::tokenmap::lemma_occ_le_len(tokens_of_text(c.title), t);
    }
    assert forall|t: Seq<char>| #[trigger] lookup_nat(indexed_of(c).alt_freq, t) <= indexed_of(
        c,
    ).alt_len by {
        crate::tokenmap::lemma_occ_le_len(tokens_of_text(c.alt), t);
    }
}

/// Some record carries the given sequence id.
pub open spec fn contains_id(comics: Seq<ComicIndexView>, num: u16) -> bool {
    exists|i: int| 0 <= i < comics.len() && (#[trigger] comics[i]).comic.num == num
}

impl Document {
    /// The empty corpus.
    pub fn new() -> (d: Document)
        ensures
            d@.comics.len() == 0,
            d@.frequency.title_freq.len() == 0,
            d@.frequency.alt_freq.len() == 0,
            doc_wf(d@),
    {
        let d = Document {
            comics: Vec::new(),
            frequency: ComicFrequency { alt_freq: TokenMap::new(), title_freq: TokenMap::new() },
        };
        proof {
            assert(d@.comics =~= Seq::<ComicIndexView>::empty());
        }
        d
    }

    /// Whether a record with the given sequence id is already present.
    pub fn contains_num(&self, num: u16) -> (r: bool)
        ensures
            r == contains_id(self@.comics, num),
    {
        let n = self.comics.len();
        let mut i: usize = 0;
        while i < n
            invariant
                i <= n,
                n == self@.comics.len(),
                forall|j: int| 0 <= j < i ==> (#[trigger] self@.comics[j]).comic.num != num,
            decreases n - i,
        {
            if self.comics[i].comic.num == num {
                proof {
                    assert(self@.comics[i as int].comic.num == num);
                }
                return true;
            }
            i += 1;
        }
        false
    }
}

/// Indexes one record and appends it, keeping the corpus invariant.
fn push_indexed(doc: &mut Document, comic: &Comic)
    requires
        doc_wf(old(doc)@),
        old(doc)@.comics.len() < usize::MAX,
    ensures
        doc_wf(final(doc)@),
        final(doc)@.comics == old(doc)@.comics.push(indexed_of(comic@)),
        final(doc)@.frequency.title_freq == bump_keys(
            old(doc)@.frequency.title_freq,
            indexed_of(comic@).title_freq,
        ),
        final(doc)@.frequency.alt_freq == bump_keys(
            old(doc)@.frequency.alt_freq,
            indexed_of(comic@).alt_freq,
        ),
{
    proof {
        // every aggregate count is a document frequency, hence below the
        // number of records, hence below u64::MAX
        assert forall|t: Seq<char>| #[trigger] lookup(old(doc)@.frequency.title_freq, t)
            is Some implies lookup(old(doc)@.frequency.title_freq, t)->Some_0 < u64::MAX by {
            lemma_df_le_len(old(doc)@.comics, t);
            assert(lookup_nat(old(doc)@.frequency.title_freq, t) == df_title(
                old(doc)@.comics,
                t,
            ));
        }
        assert forall|t: Seq<char>| #[trigger] lookup(old(doc)@.frequency.alt_freq, t)
            is Some implies lookup(old(doc)@.frequency.alt_freq, t)->Some_0 < u64::MAX by {
            lemma_df_le_len(old(doc)@.comics, t);
            assert(lookup_nat(old(doc)@.frequency.alt_freq, t) == df_alt(old(doc)@.comics, t));
        }
    }
    let ix = index_comic(comic, &mut doc.frequency);
    let ghost ixv = ix@;
    let ghost old_comics = doc@.comics;
    doc.comics.push(ix);
    proof {
        assert(doc@.comics =~= old_comics.push(ixv));
        let newc = doc@.comics;
        assert(newc.drop_last() =~= old_comics);
        assert(newc.last() == ixv);
        assert forall|t: Seq<char>| #[trigger] lookup_nat(
            doc@.frequency.title_freq,
            t,
        ) == df_title(newc, t) by {
            let oft = old(doc)@.frequency.title_freq;
            lemma_df_le_len(old_comics, t);
            assert(lookup_nat(oft, t) == df_title(old_comics, t));
            lemma_bump_keys_lookup(oft, ixv.title_freq, t);
            assert(df_title(newc, t) == df_title(old_comics, t) + if keys_contain(
                ixv.title_freq,
                t,
            ) {
                1nat
            } else {
                0nat
            });
            if keys_contain(ixv.title_freq, t) {
                if lookup(oft, t) is Some {
                    assert(lookup(oft, t)->Some_0 < u64::MAX);
                }
            }
        }
        assert forall|t: Seq<char>| #[trigger] lookup_nat(doc@.frequency.alt_freq, t) == df_alt(
            newc,
            t,
        ) by {
            let oft = old(doc)@.frequency.alt_freq;
            lemma_df_le_len(old_comics, t);
            assert(lookup_nat(oft, t) == df_alt(old_comics, t));
            lemma_bump_keys_lookup(oft, ixv.alt_freq, t);
            assert(df_alt(newc, t) == df_alt(old_comics, t) + if keys_contain(
                ixv.alt_freq,
                t,
            ) {
                1nat
            } else {
                0nat
            });
            if keys_contain(ixv.alt_freq, t) {
                if lookup(oft, t) is Some {
                    assert(lookup(oft, t)->Some_0 < u64::MAX);
                }
            }
        }
        assert forall|i: int| 0 <= i < newc.len() implies index_wf(#[trigger] newc[i]) by {
            if i < newc.len() - 1 {
                assert(newc[i] == old(doc)@.comics[i]);
            }
        }
    }
}

/// Builds a corpus from fetched records, in the order they arrived.
/// Every record is indexed; the aggregate ends up counting, per field and
/// token, exactly the records whose field holds the token.
pub fn build_document(comics: Vec<Comic>) -> (d: Document)
    ensures
        doc_wf(d@),
        d@.comics.len() == comics@.len(),
        forall|i: int| 0 <= i < comics@.len() ==> #[trigger] d@.comics[i] == indexed_of(
            comics@[i]@,
        ),
{
    let mut d = Document::new();
    let n = comics.len();
    let mut i: usize = 0;
    while i < n
        invariant
            i <= n,
            n == comics@.len(),
            doc_wf(d@),
            d@.comics.len() == i,
            forall|j: int| 0 <= j < i ==> #[trigger] d@.comics[j] == indexed_of(comics@[j]@),
        decreases n - i,
    {
        push_indexed(&mut d, &comics[i]);
        i += 1;
    }
    d
}

/// Appends one record unless its sequence id is already present; appending a
/// present id leaves the corpus unchanged.
pub fn append_to_document(doc: &mut Document, comic: &Comic) -> (added: bool)
    requires
        doc_wf(old(doc)@),
        old(doc)@.comics.len() < usize::MAX,
    ensures
        doc_wf(final(doc)@),
        added == !contains_id(old(doc)@.comics, comic@.num),
        !added ==> *final(doc) == *old(doc),
        added ==> final(doc)@.comics == old(doc)@.comics.push(indexed_of(comic@)),
        added ==> final(doc)@.frequency.title_freq == bump_keys(
            old(doc)@.frequency.title_freq,
            indexed_of(comic@).title_freq,
        ),
        added ==> final(doc)@.frequency.alt_freq == bump_keys(
            old(doc)@.frequency.alt_freq,
            indexed_of(comic@).alt_freq,
        ),
{
    if doc.contains_num(comic.num) {
        return false;
    }
    push_indexed(doc, comic);
    true
}

/// The ids a bulk build fetches: `1..=latest`.
pub fn plan_ids(latest_num: u16) -> (ids: Vec<u16>)
    ensures
        ids@.len() == latest_num as int,
        forall|i: int| 0 <= i < latest_num as int ==> #[trigger] ids@[i] == i + 1,
{
    let mut ids: Vec<u16> = Vec::new();
    let mut k: usize = 1;
    while k <= latest_num as usize
        invariant
            1 <= k,
            k as int <= latest_num as int + 1,
            ids@.len() == k as int - 1,
            forall|i: int| 0 <= i < k - 1 ==> #[trigger] ids@[i] == i + 1,
        decreases latest_num as int + 1 - k as int,
    {
        ids.push(k as u16);
        k += 1;
    }
    ids
}


/// Folding one record's term-frequency map into the aggregate raises a
/// token's document frequency by exactly one when the token occurs in the
/// record's field, however often it repeats there, and not at all otherwise.
pub proof fn lemma_df_unique_contribution(
    m: Seq<(Seq<char>, u64)>,
    toks: Seq<Seq<char>>,
    t: Seq<char>,
)
    requires
        entries_wf(m),
        toks.len() <= u64::MAX,
        lookup(m, t) matches Some(c) ==> c < u64::MAX,
    ensures
        lookup_nat(bump_keys(m, counts_seq(toks)), t) == lookup_nat(m, t) + if occ_count(
            toks,
            t,
        ) > 0 {
            1nat
        } else {
            0nat
        },
{
    lemma_counts_seq(toks);
    lemma_bump_lookup(m, t);
    lemma_bump_keys_lookup(m, counts_seq(toks), t);
    lemma_lookup_some_iff(counts_seq(toks), t);
}


/// The token map of one field of a record.
pub open spec fn ix_field_map(iv: ComicIndexView, f: Field) -> Seq<(Seq<char>, u64)> {
    match f {
        Field::Title => iv.title_freq,
        Field::Alt => iv.alt_freq,
    }
}

/// The document frequency of one field.
pub open spec fn df_field(comics: Seq<ComicIndexView>, t: Seq<char>, f: Field) -> nat {
    match f {
        Field::Title => df_title(comics, t),
        Field::Alt => df_alt(comics, t),
    }
}

/// A field's document frequency is zero exactly when no record's field
/// holds the token.
pub proof fn lemma_df_zero_iff(comics: Seq<ComicIndexView>, t: Seq<char>, f: Field)
    ensures
        df_field(comics, t, f) == 0 <==> (forall|i: int|
            0 <= i < comics.len() ==> !keys_contain(ix_field_map(#[trigger] comics[i], f), t)),
    decreases comics.len(),
{
    if comics.len() > 0 {
        lemma_df_zero_iff(comics.drop_last(), t, f);
        let pre = comics.drop_last();
        assert(forall|i: int| 0 <= i < pre.len() ==> pre[i] == #[trigger] comics[i]);
        if df_field(comics, t, f) == 0 {
            assert(df_field(pre, t, f) == 0);
            assert(!keys_contain(ix_field_map(comics.last(), f), t));
            assert forall|i: int| 0 <= i < comics.len() implies !keys_contain(
                ix_field_map(#[trigger] comics[i], f),
                t,
            ) by {
                if i < comics.len() - 1 {
                    assert(comics[i] == pre[i]);
                }
            }
        } else {
            if keys_contain(ix_field_map(comics.last(), f), t) {
                assert(comics[comics.len() - 1] == comics.last());
            } else {
                assert(df_field(pre, t, f) != 0);
                let i = choose|i: int|
                    0 <= i < pre.len() && keys_contain(ix_field_map(#[trigger] pre[i], f), t);
                assert(keys_contain(ix_field_map(comics[i], f), t));
            }
        }
    }
}

/// Decides `entries_wf`: whether the keys of a token map are pairwise
/// distinct.
fn entries_wf_exec(m: &TokenMap) -> (b: bool)
    ensures
        b == entries_wf(m@),
{
    let n = m.entries.len();
    let mut i: usize = 0;
    while i < n
        invariant
            i <= n,
            n == m@.len(),
            n == m.entries@.len(),
            forall|x: int, y: int| 0 <= x < y < n && x < i ==> (#[trigger] m@[x]).0 != (
            #[trigger] m@[y]).0,
        decreases n - i,
    {
        let mut j: usize = i + 1;
        while j < n
            invariant
                i < j <= n || (i + 1 == j && j <= n),
                i < n,
                n == m@.len(),
                n == m.entries@.len(),
                i + 1 <= j,
                forall|y: int| i < y < j ==> (#[trigger] m@[y]).0 != m@[i as int].0,
            decreases n - j,
        {
            if str_eq(m.entries[i].token.as_str(), m.entries[j].token.as_str()) {
                proof {
                    assert(m@[i as int].0 == m@[j as int].0);
                    assert(!entries_wf(m@));
                }
                return false;
            }
            j += 1;
        }
        i += 1;
    }
    proof {
        assert(entries_wf(m@));
    }
    true
}

/// The token map of one field.
fn field_map_ref<'a>(ix: &'a ComicIndex, f: &Field) -> (m: &'a TokenMap)
    ensures
        m@ == ix_field_map(ix@, *f),
{
    match f {
        Field::Title => &ix.title_freq,
        Field::Alt => &ix.alt_freq,
    }
}

/// Counts the records whose field holds the token.
fn df_count(comics: &Vec<ComicIndex>, t: &str, f: &Field) -> (cnt: u64)
    ensures
        cnt as nat == df_field(comics_view(comics@), t@, *f),
{
    let n = comics.len();
    let mut cnt: u64 = 0;
    let mut i: usize = 0;
    let ghost cv = comics_view(comics@);
    proof {
        assert(cv.take(0) =~= Seq::<ComicIndexView>::empty());
    }
    while i < n
        invariant
            i <= n,
            n == comics@.len(),
            cv == comics_view(comics@),
            cv.len() == n,
            cnt <= i,
            cnt as nat == df_field(cv.take(i as int), t@, *f),
        decreases n - i,
    {
        let m = field_map_ref(&comics[i], f);
        let found = m.get(t);
        proof {
            assert(cv.take(i + 1).drop_last() =~= cv.take(i as int));
            assert(cv.take(i + 1).last() == cv[i as int]);
            assert(cv[i as int] == comics@[i as int]@);
            lemma_lookup_some_iff(ix_field_map(cv[i as int], *f), t@);
            if *f == Field::Title {
                assert(df_field(cv.take(i + 1), t@, *f) == df_title(cv.take(i + 1), t@));
            } else {
                assert(df_field(cv.take(i + 1), t@, *f) == df_alt(cv.take(i + 1), t@));
            }
        }
        if found.is_some() {
            cnt += 1;
        }
        i += 1;
    }
    proof {
        assert(cv.take(n as int) =~= cv);
    }
    cnt
}

/// Decides whether one field's aggregate counts exactly the records that
/// hold each token.
fn check_field(comics: &Vec<ComicIndex>, fm: &TokenMap, f: &Field) -> (b: bool)
    requires
        entries_wf(fm@),
    ensures
        b == (forall|t: Seq<char>| #[trigger] lookup_nat(fm@, t) == df_field(
            comics_view(comics@),
            t,
            *f,
        )),
{
    let ghost cv = comics_view(comics@);
    let nf = fm.entries.len();
    let mut j: usize = 0;
    // every stored count must equal the field's document frequency
    while j < nf
        invariant
            j <= nf,
            nf == fm@.len(),
            nf == fm.entries@.len(),
            cv == comics_view(comics@),
            entries_wf(fm@),
            forall|x: int| 0 <= x < j ==> (#[trigger] fm@[x]).1 as nat == df_field(
                cv,
                fm@[x].0,
                *f,
            ),
        decreases nf - j,
    {
        let cnt = df_count(comics, fm.entries[j].token.as_str(), f);
        if fm.entries[j].count != cnt {
            proof {
                let t0 = fm@[j as int].0;
                assert(forall|k: int| 0 <= k < j ==> (#[trigger] fm@[k]).0 != t0);
                crate::tokenmap::lemma_lookup_at(fm@, j as int);
                assert(lookup_nat(fm@, t0) != df_field(cv, t0, *f));
            }
            return false;
        }
        j += 1;
    }
    // every token held by some record must stand in the aggregate
    let n = comics.len();
    let mut i: usize = 0;
    while i < n
        invariant
            i <= n,
            n == comics@.len(),
            cv == comics_view(comics@),
            cv.len() == n,
            entries_wf(fm@),
            nf == fm@.len(),
            forall|x: int| 0 <= x < nf ==> (#[trigger] fm@[x]).1 as nat == df_field(
                cv,
                fm@[x].0,
                *f,
            ),
            forall|x: int, k: int|
                0 <= x < i && 0 <= k < ix_field_map(#[trigger] cv[x], *f).len() ==> lookup(
                    fm@,
                    (#[trigger] ix_field_map(cv[x], *f)[k]).0,
                ) is Some,
        decreases n - i,
    {
        let m = field_map_ref(&comics[i], f);
        let nk = m.entries.len();
        let mut k: usize = 0;
        while k < nk
            invariant
                k <= nk,
                i < n,
                n == comics@.len(),
                cv == comics_view(comics@),
                cv.len() == n,
                entries_wf(fm@),
                nf == fm@.len(),
                m@ == ix_field_map(cv[i as int], *f),
                nk == m@.len(),
                nk == m.entries@.len(),
                forall|x: int| 0 <= x < nf ==> (#[trigger] fm@[x]).1 as nat == df_field(
                    cv,
                    fm@[x].0,
                    *f,
                ),
                forall|x: int, kk: int|
                    0 <= x < i && 0 <= kk < ix_field_map(#[trigger] cv[x], *f).len() ==> lookup(
                        fm@,
                        (#[trigger] ix_field_map(cv[x], *f)[kk]).0,
                    ) is Some,
                forall|kk: int| 0 <= kk < k ==> lookup(fm@, (#[trigger] m@[kk]).0) is Some,
            decreases nk - k,
        {
            let found = fm.get(m.entries[k].token.as_str());
            if found.is_none() {
                proof {
                    let t0 = m@[k as int].0;
                    assert(lookup_nat(fm@, t0) == 0);
                    assert(keys_contain(ix_field_map(cv[i as int], *f), t0));
                    lemma_df_zero_iff(cv, t0, *f);
                    assert(df_field(cv, t0, *f) != 0);
                    assert(lookup_nat(fm@, t0) != df_field(cv, t0, *f));
                }
                return false;
            }
            k += 1;
        }
        i += 1;
    }
    proof {
        assert forall|t: Seq<char>| #[trigger] lookup_nat(fm@, t) == df_field(cv, t, *f) by {
            lemma_lookup_some_iff(fm@, t);
            if keys_contain(fm@, t) {
                let jx = choose|jx: int| 0 <= jx < fm@.len() && (#[trigger] fm@[jx]).0 == t;
                assert(forall|k: int| 0 <= k < jx ==> (#[trigger] fm@[k]).0 != t);
                crate::tokenmap::lemma_lookup_at(fm@, jx);
                assert(fm@[jx].1 as nat == df_field(cv, fm@[jx].0, *f));
            } else {
                assert(forall|k: int| 0 <= k < fm@.len() ==> (#[trigger] fm@[k]).0 != t);
                crate::tokenmap::lemma_lookup_none(fm@, t);
                lemma_df_zero_iff(cv, t, *f);
                assert forall|x: int| 0 <= x < cv.len() implies !keys_contain(
                    ix_field_map(#[trigger] cv[x], *f),
                    t,
                ) by {
                    if keys_contain(ix_field_map(cv[x], *f), t) {
                        let kk = choose|kk: int|
                            0 <= kk < ix_field_map(cv[x], *f).len() && (#[trigger] ix_field_map(
                                cv[x],
                                *f,
                            )[kk]).0 == t;
                        assert(lookup(fm@, ix_field_map(cv[x], *f)[kk].0) is Some);
                        assert(keys_contain(fm@, t));
                    }
                }
            }
        }
    }
    true
}

impl Document {
    /// Decides the corpus invariant: both aggregate maps and every
    /// per-record map have unique keys, and the aggregate counts, per field
    /// and token, exactly the records whose field holds the token.
    pub fn check_wf(&self) -> (b: bool)
        ensures
            b == doc_wf(self@),
    {
        if !entries_wf_exec(&self.frequency.title_freq) {
            return false;
        }
        if !entries_wf_exec(&self.frequency.alt_freq) {
            return false;
        }
        let n = self.comics.len();
        let mut i: usize = 0;
        while i < n
            invariant
                i <= n,
                n == self.comics@.len(),
                self@.comics.len() == n,
                forall|x: int| 0 <= x < i ==> index_wf(#[trigger] self@.comics[x]),
            decreases n - i,
        {
            if !entries_wf_exec(&self.comics[i].title_freq) {
                proof {
                    assert(!index_wf(self@.comics[i as int]));
                }
                return false;
            }
            if !entries_wf_exec(&self.comics[i].alt_freq) {
                proof {
                    assert(!index_wf(self@.comics[i as int]));
                }
                return false;
            }
            i += 1;
        }
        if !check_field(&self.comics, &self.frequency.title_freq, &Field::Title) {
            proof {
                let t = choose|t: Seq<char>| lookup_nat(self@.frequency.title_freq, t)
                    != df_field(comics_view(self.comics@), t, Field::Title);
                assert(lookup_nat(self@.frequency.title_freq, t) != df_title(self@.comics, t));
            }
            return false;
        }
        if !check_field(&self.comics, &self.frequency.alt_freq, &Field::Alt) {
            proof {
                let t = choose|t: Seq<char>| lookup_nat(self@.frequency.alt_freq, t) != df_field(
                    comics_view(self.comics@),
                    t,
                    Field::Alt,
                );
                assert(lookup_nat(self@.frequency.alt_freq, t) != df_alt(self@.comics, t));
            }
            return false;
        }
        proof {
            assert forall|t: Seq<char>| #[trigger] lookup_nat(
                self@.frequency.title_freq,
                t,
            ) == df_title(self@.comics, t) by {
                assert(lookup_nat(self@.frequency.title_freq, t) == df_field(
                    comics_view(self.comics@),
                    t,
                    Field::Title,
                ));
            }
            assert forall|t: Seq<char>| #[trigger] lookup_nat(
                self@.frequency.alt_freq,
                t,
            ) == df_alt(self@.comics, t) by {
                assert(lookup_nat(self@.frequency.alt_freq, t) == df_field(
                    comics_view(self.comics@),
                    t,
                    Field::Alt,
                ));
            }
        }
        true
    }
}

} // verus!
