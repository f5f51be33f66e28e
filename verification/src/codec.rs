//! Lossless binary snapshot of a corpus.
//!
//! The corpus is written as length-prefixed records: every integer is a
//! little-endian 64-bit value, every string its UTF-8 byte length followed by
//! its UTF-8 bytes. Decoding accepts exactly the encodings this module
//! writes, and restores the encoded corpus content exactly.

use crate::comic::{
    Comic, ComicFrequency, ComicFrequencyView, ComicIndex, ComicIndexView, ComicView, Document,
    DocumentView,
};
use crate::strutil::string_of_utf8;
use crate::tokenmap::{TokenCount, TokenMap};
use vstd::bytes::{
    spec_u64_from_le_bytes,
    lemma_auto_spec_u64_to_from_le_bytes, spec_u64_to_le_bytes, u64_from_le_bytes, u64_to_le_bytes,
};
use vstd::prelude::*;
use vstd::slice::{slice_subrange, slice_to_vec};
use vstd::utf8::{
    decode_utf8_encode_utf8, encode_utf8, encode_utf8_decode_utf8, encode_utf8_valid_utf8,
    valid_utf8,
};

verus! {

/// Encoding of one integer.
pub open spec fn enc_u64(x: u64) -> Seq<u8> {
    spec_u64_to_le_bytes(x)
}

/// Encoding of one string: its UTF-8 byte length, then its UTF-8 bytes.
pub open spec fn enc_str(s: Seq<char>) -> Seq<u8> {
    enc_u64(encode_utf8(s).len() as u64) + encode_utf8(s)
}

/// Encoding of token map entries, in order.
pub open spec fn enc_entries(es: Seq<(Seq<char>, u64)>) -> Seq<u8>
    decreases es.len(),
{
    if es.len() == 0 {
        Seq::empty()
    } else {
        enc_entries(es.drop_last()) + enc_str(es.last().0) + enc_u64(es.last().1)
    }
}

/// Encoding of a token map: its entry count, then its entries.
pub open spec fn enc_map(es: Seq<(Seq<char>, u64)>) -> Seq<u8> {
    enc_u64(es.len() as u64) + enc_entries(es)
}

/// Encoding of one record, field by field.
pub open spec fn enc_comic(c: ComicView) -> Seq<u8> {
    enc_str(c.month) + enc_u64(c.num as u64) + enc_str(c.year) + enc_str(c.day) + enc_str(c.title)
        + enc_str(c.alt) + enc_str(c.img) + enc_str(c.transcript)
}

/// Encoding of one indexed record.
pub open spec fn enc_index(ix: ComicIndexView) -> Seq<u8> {
    enc_map(ix.title_freq) + enc_u64(ix.title_len) + enc_map(ix.alt_freq) + enc_u64(ix.alt_len)
        + enc_comic(ix.comic)
}

/// Encoding of the indexed records, in order.
pub open spec fn enc_indices(s: Seq<ComicIndexView>) -> Seq<u8>
    decreases s.len(),
{
    if s.len() == 0 {
        Seq::empty()
    } else {
        enc_indices(s.drop_last()) + enc_index(s.last())
    }
}

/// Encoding of a whole corpus: record count, records, then the aggregate.
pub open spec fn enc_doc(d: DocumentView) -> Seq<u8> {
    enc_u64(d.comics.len() as u64) + enc_indices(d.comics) + enc_map(d.frequency.alt_freq)
        + enc_map(d.frequency.title_freq)
}

/// Appends one integer.
fn put_u64(out: &mut Vec<u8>, x: u64)
    ensures
        final(out)@ == old(out)@ + enc_u64(x),
{
    let mut b = u64_to_le_bytes(x);
    out.append(&mut b);
}

/// Appends one string.
fn put_str(out: &mut Vec<u8>, s: &str)
    ensures
        final(out)@ == old(out)@ + enc_str(s@),
{
    proof {
        lemma_auto_spec_u64_to_from_le_bytes();
    }
    let mut b = s.as_bytes_vec();
    let n = b.len();
    proof {
        assert(b@.len() == n);
    }
    put_u64(out, n as u64);
    out.append(&mut b);
    proof {
        assert(out@ =~= old(out)@ + enc_str(s@));
    }
}

/// Appends one token map.
fn put_map(out: &mut Vec<u8>, m: &TokenMap)
    ensures
        final(out)@ == old(out)@ + enc_map(m@),
{
    proof {
        lemma_auto_spec_u64_to_from_le_bytes();
    }
    let n = m.entries.len();
    put_u64(out, n as u64);
    let ghost base = out@;
    let mut i: usize = 0;
    proof {
        assert(m@.take(0) =~= Seq::<(Seq<char>, u64)>::empty());
        assert(out@ =~= base + enc_entries(m@.take(0)));
    }
    while i < n
        invariant
            i <= n,
            n == m.entries@.len(),
            m@.len() == n,
            out@ == base + enc_entries(m@.take(i as int)),
        decreases n - i,
    {
        proof {
            assert(m@.take(i + 1).drop_last() =~= m@.take(i as int));
            assert(m@.take(i + 1).last() == m@[i as int]);
            assert(m@[i as int] == m.entries@[i as int]@);
        }
        put_str(out, entry_token(&m.entries[i]));
        put_u64(out, m.entries[i].count);
        proof {
            assert(out@ =~= base + enc_entries(m@.take(i + 1)));
        }
        i += 1;
    }
    proof {
        assert(m@.take(n as int) =~= m@);
        assert(out@ =~= old(out)@ + enc_map(m@));
    }
}

/// The token of one entry.
fn entry_token(e: &TokenCount) -> (r: &str)
    ensures
        r@ == e@.0,
{
    e.token.as_str()
}

/// Appends one record.
fn put_comic(out: &mut Vec<u8>, c: &Comic)
    ensures
        final(out)@ == old(out)@ + enc_comic(c@),
{
    proof {
        lemma_auto_spec_u64_to_from_le_bytes();
    }
    put_str(out, c.month.as_str());
    put_u64(out, c.num as u64);
    put_str(out, c.year.as_str());
    put_str(out, c.day.as_str());
    put_str(out, c.title.as_str());
    put_str(out, c.alt.as_str());
    put_str(out, c.img.as_str());
    put_str(out, c.transcript.as_str());
    proof {
        assert(out@ =~= old(out)@ + enc_comic(c@));
    }
}

/// Appends one indexed record.
fn put_index(out: &mut Vec<u8>, ix: &ComicIndex)
    ensures
        final(out)@ == old(out)@ + enc_index(ix@),
{
    proof {
        lemma_auto_spec_u64_to_from_le_bytes();
    }
    put_map(out, &ix.title_freq);
    put_u64(out, ix.title_len);
    put_map(out, &ix.alt_freq);
    put_u64(out, ix.alt_len);
    put_comic(out, &ix.comic);
    proof {
        assert(out@ =~= old(out)@ + enc_index(ix@));
    }
}

/// Encodes a whole corpus as its snapshot bytes.
pub fn encode_document(doc: &Document) -> (out: Vec<u8>)
    ensures
        out@ == enc_doc(doc@),
{
    proof {
        lemma_auto_spec_u64_to_from_le_bytes();
    }
    let mut out: Vec<u8> = Vec::new();
    let n = doc.comics.len();
    put_u64(&mut out, n as u64);
    let ghost base = out@;
    let mut i: usize = 0;
    proof {
        assert(doc@.comics.take(0) =~= Seq::<ComicIndexView>::empty());
        assert(out@ =~= base + enc_indices(doc@.comics.take(0)));
    }
    while i < n
        invariant
            i <= n,
            n == doc.comics@.len(),
            doc@.comics.len() == n,
            out@ == base + enc_indices(doc@.comics.take(i as int)),
        decreases n - i,
    {
        proof {
            assert(doc@.comics.take(i + 1).drop_last() =~= doc@.comics.take(i as int));
            assert(doc@.comics.take(i + 1).last() == doc@.comics[i as int]);
            assert(doc@.comics[i as int] == doc.comics@[i as int]@);
        }
        put_index(&mut out, &doc.comics[i]);
        proof {
            assert(out@ =~= base + enc_indices(doc@.comics.take(i + 1)));
        }
        i += 1;
    }
    proof {
        assert(doc@.comics.take(n as int) =~= doc@.comics);
    }
    put_map(&mut out, &doc.frequency.alt_freq);
    put_map(&mut out, &doc.frequency.title_freq);
    proof {
        assert(out@ =~= enc_doc(doc@));
    }
    out
}


/// The bytes at `pos` hold exactly the segment `e`.
pub open spec fn enc_at(b: Seq<u8>, pos: int, e: Seq<u8>) -> bool {
    0 <= pos && pos + e.len() <= b.len() && b.subrange(pos, pos + e.len()) == e
}

/// A segment that is a concatenation splits into its two parts.
proof fn lemma_split_at(b: Seq<u8>, pos: int, x: Seq<u8>, y: Seq<u8>)
    requires
        0 <= pos,
        pos + x.len() + y.len() <= b.len(),
        b.subrange(pos, pos + x.len() + y.len()) == x + y,
    ensures
        b.subrange(pos, pos + x.len()) == x,
        b.subrange(pos + x.len(), pos + x.len() + y.len()) == y,
{
    let whole = b.subrange(pos, pos + x.len() + y.len());
    assert forall|i: int| 0 <= i < x.len() implies b.subrange(pos, pos + x.len())[i] == x[i] by {
        assert(whole[i] == (x + y)[i]);
    }
    assert(b.subrange(pos, pos + x.len()) =~= x);
    assert forall|i: int| 0 <= i < y.len() implies b.subrange(
        pos + x.len(),
        pos + x.len() + y.len(),
    )[i] == y[i] by {
        assert(whole[x.len() + i] == (x + y)[x.len() + i]);
    }
    assert(b.subrange(pos + x.len(), pos + x.len() + y.len()) =~= y);
}


/// Two adjacent known segments join into their concatenation.
proof fn lemma_join_at(b: Seq<u8>, pos: int, x: Seq<u8>, y: Seq<u8>)
    requires
        0 <= pos,
        pos + x.len() + y.len() <= b.len(),
        b.subrange(pos, pos + x.len()) == x,
        b.subrange(pos + x.len(), pos + x.len() + y.len()) == y,
    ensures
        b.subrange(pos, pos + x.len() + y.len()) == x + y,
{
    assert forall|i: int| 0 <= i < x.len() + y.len() implies b.subrange(
        pos,
        pos + x.len() + y.len(),
    )[i] == (x + y)[i] by {
        if i < x.len() {
            assert(b.subrange(pos, pos + x.len())[i] == x[i]);
        } else {
            assert(b.subrange(pos + x.len(), pos + x.len() + y.len())[i - x.len()] == y[i
                - x.len()]);
        }
    }
    assert(b.subrange(pos, pos + x.len() + y.len()) =~= x + y);
}

/// Reads one integer.
fn dec_u64(bytes: &[u8], pos: usize) -> (r: Option<(u64, usize)>)
    requires
        pos <= bytes@.len(),
    ensures
        r matches Some(p) ==> p.1 == pos + 8 && enc_at(bytes@, pos as int, enc_u64(p.0)),
        pos + 8 <= bytes@.len() ==> r is Some,
        forall|v: u64| enc_at(bytes@, pos as int, enc_u64(v)) ==> (r matches Some(p) && p.0
            == v),
{
    proof {
        lemma_auto_spec_u64_to_from_le_bytes();
    }
    let len = bytes.len();
    if len - pos < 8 {
        proof {
            assert forall|v: u64| !enc_at(bytes@, pos as int, enc_u64(v)) by {
                assert(enc_u64(v).len() == 8);
            }
        }
        None
    } else {
        let s2 = slice_subrange(bytes, pos, pos + 8);
        let x = u64_from_le_bytes(s2);
        proof {
            assert(spec_u64_to_le_bytes(spec_u64_from_le_bytes(s2@)) == s2@);
            assert(enc_at(bytes@, pos as int, enc_u64(x)));
            assert forall|v: u64| enc_at(bytes@, pos as int, enc_u64(v)) implies x == v by {
                assert(bytes@.subrange(pos as int, pos + 8) == enc_u64(v));
            }
        }
        Some((x, pos + 8))
    }
}

/// Reads one string.
fn dec_str(bytes: &[u8], pos: usize) -> (r: Option<(String, usize)>)
    requires
        pos <= bytes@.len(),
    ensures
        r matches Some(p) ==> pos <= p.1 <= bytes@.len() && p.1 == pos + enc_str(p.0@).len()
            && enc_at(bytes@, pos as int, enc_str(p.0@)),
        forall|sv: Seq<char>| #[trigger] enc_at(bytes@, pos as int, enc_str(sv)) ==> (
        r matches Some(p) && p.0@ == sv && p.1 == pos + enc_str(sv).len()),
{
    proof {
        lemma_auto_spec_u64_to_from_le_bytes();
    }
    let len = bytes.len();
    let first = dec_u64(bytes, pos);
    match first {
        None => {
            proof {
                assert forall|sv: Seq<char>| !enc_at(bytes@, pos as int, enc_str(sv)) by {
                    if enc_at(bytes@, pos as int, enc_str(sv)) {
                        let e = enc_str(sv);
                        let hd = enc_u64(encode_utf8(sv).len() as u64);
                        lemma_split_at(bytes@, pos as int, hd, encode_utf8(sv));
                        assert(pos + 8 <= bytes@.len());
                    }
                }
            }
            None
        },
        Some((big_l, p1)) => {
            if big_l > (len - p1) as u64 {
                proof {
                    assert forall|sv: Seq<char>| !enc_at(bytes@, pos as int, enc_str(sv)) by {
                        if enc_at(bytes@, pos as int, enc_str(sv)) {
                            let hd = enc_u64(encode_utf8(sv).len() as u64);
                            lemma_split_at(bytes@, pos as int, hd, encode_utf8(sv));
                            assert(enc_at(bytes@, pos as int, hd));
                            assert(big_l == encode_utf8(sv).len() as u64);
                        }
                    }
                }
                None
            } else {
                let lu = big_l as usize;
                let seg = slice_subrange(bytes, p1, p1 + lu);
                let v = slice_to_vec(seg);
                let parsed = string_of_utf8(v);
                match parsed {
                    None => {
                        proof {
                            assert forall|sv: Seq<char>| !enc_at(
                                bytes@,
                                pos as int,
                                enc_str(sv),
                            ) by {
                                if enc_at(bytes@, pos as int, enc_str(sv)) {
                                    let hd = enc_u64(encode_utf8(sv).len() as u64);
                                    lemma_split_at(bytes@, pos as int, hd, encode_utf8(sv));
                                    assert(big_l == encode_utf8(sv).len() as u64);
                                    assert(seg@ =~= encode_utf8(sv));
                                    encode_utf8_valid_utf8(sv);
                                }
                            }
                        }
                        None
                    },
                    Some(sstr) => {
                        proof {
                            assert(valid_utf8(seg@));
                            assert(sstr@ == vstd::utf8::decode_utf8(seg@));
                            decode_utf8_encode_utf8(seg@);
                            assert(encode_utf8(sstr@) == seg@);
                            assert(bytes@.subrange(pos as int, pos + 8 + lu) =~= enc_u64(big_l)
                                + seg@);
                            assert(enc_str(sstr@) =~= enc_u64(big_l) + seg@);
                            assert(enc_at(bytes@, pos as int, enc_str(sstr@)));
                            assert forall|sv: Seq<char>| enc_at(
                                bytes@,
                                pos as int,
                                enc_str(sv),
                            ) implies sstr@ == sv && pos + enc_str(sv).len() == p1 + lu by {
                                let hd = enc_u64(encode_utf8(sv).len() as u64);
                                lemma_split_at(bytes@, pos as int, hd, encode_utf8(sv));
                                assert(big_l == encode_utf8(sv).len() as u64);
                                assert(seg@ =~= encode_utf8(sv));
                                encode_utf8_decode_utf8(sv);
                            }
                        }
                        Some((sstr, p1 + lu))
                    },
                }
            }
        },
    }
}


/// Entry encodings from position `k` on.
pub open spec fn enc_entries_from(ev: Seq<(Seq<char>, u64)>, k: int) -> Seq<u8>
    decreases ev.len() - k,
{
    if k < 0 || k >= ev.len() {
        Seq::empty()
    } else {
        enc_str(ev[k].0) + enc_u64(ev[k].1) + enc_entries_from(ev, k + 1)
    }
}

/// The entry encoding splits at any position.
proof fn lemma_entries_bridge(ev: Seq<(Seq<char>, u64)>, k: int)
    requires
        0 <= k <= ev.len(),
    ensures
        enc_entries(ev) == enc_entries(ev.take(k)) + enc_entries_from(ev, k),
    decreases ev.len() - k,
{
    if k == ev.len() {
        assert(ev.take(k) =~= ev);
        assert(enc_entries(ev) =~= enc_entries(ev.take(k)) + enc_entries_from(ev, k));
    } else {
        lemma_entries_bridge(ev, k + 1);
        assert(ev.take(k + 1).drop_last() =~= ev.take(k));
        assert(ev.take(k + 1).last() == ev[k]);
        assert(enc_entries(ev.take(k + 1)) == enc_entries(ev.take(k)) + enc_str(ev[k].0)
            + enc_u64(ev[k].1));
        assert(enc_entries(ev) =~= enc_entries(ev.take(k)) + enc_entries_from(ev, k));
    }
}

/// An entry list never encodes shorter than its length.
proof fn lemma_entries_min_len(ev: Seq<(Seq<char>, u64)>)
    ensures
        enc_entries(ev).len() >= ev.len(),
    decreases ev.len(),
{
    if ev.len() > 0 {
        lemma_entries_min_len(ev.drop_last());
        lemma_auto_spec_u64_to_from_le_bytes();
    }
}

/// What holds of a token-map parse outcome for one candidate content.
pub open spec fn map_hyp(b: Seq<u8>, pos: int, ev: Seq<(Seq<char>, u64)>) -> bool {
    enc_at(b, pos, enc_map(ev))
}


/// Within a well-placed entry encoding, entry `k` sits at its cursor.
proof fn lemma_map_entry_at(b: Seq<u8>, p1: int, ev: Seq<(Seq<char>, u64)>, k: int, cur: int)
    requires
        enc_at(b, p1, enc_entries(ev)),
        0 <= k < ev.len(),
        cur == p1 + enc_entries(ev.take(k)).len(),
    ensures
        enc_at(b, cur, enc_str(ev[k].0)),
        enc_at(b, cur + enc_str(ev[k].0).len(), enc_u64(ev[k].1)),
{
    let hd = enc_str(ev[k].0);
    let md = enc_u64(ev[k].1);
    let tl = enc_entries_from(ev, k + 1);
    lemma_entries_bridge(ev, k);
    lemma_split_at(b, p1, enc_entries(ev.take(k)), enc_entries_from(ev, k));
    assert(enc_entries_from(ev, k) =~= hd + (md + tl));
    assert(b.subrange(cur, cur + hd.len() + (md + tl).len()) == hd + (md + tl));
    lemma_split_at(b, cur, hd, md + tl);
    lemma_split_at(b, cur + hd.len(), md, tl);
}

/// Reads one token map.
#[verifier::rlimit(80)]
fn dec_map(bytes: &[u8], pos: usize) -> (r: Option<(TokenMap, usize)>)
    requires
        pos <= bytes@.len(),
    ensures
        r matches Some(p) ==> pos <= p.1 <= bytes@.len() && p.1 == pos + enc_map(p.0@).len()
            && enc_at(bytes@, pos as int, enc_map(p.0@)),
        forall|ev: Seq<(Seq<char>, u64)>| #[trigger] map_hyp(bytes@, pos as int, ev) ==> (
        r matches Some(p) && p.0@ == ev && p.1 == pos + enc_map(ev).len()),
{
    proof {
        lemma_auto_spec_u64_to_from_le_bytes();
    }
    let blen = bytes.len();
    proof {
        assert(bytes@.len() == blen as int);
    }
    let first = dec_u64(bytes, pos);
    match first {
        None => {
            proof {
                assert forall|ev: Seq<(Seq<char>, u64)>| !map_hyp(bytes@, pos as int, ev) by {
                    if map_hyp(bytes@, pos as int, ev) {
                        lemma_split_at(
                            bytes@,
                            pos as int,
                            enc_u64(ev.len() as u64),
                            enc_entries(ev),
                        );
                        assert(enc_at(bytes@, pos as int, enc_u64(ev.len() as u64)));
                    }
                }
            }
            None
        },
        Some((cnt, p1)) => {
            proof {
                assert forall|ev: Seq<(Seq<char>, u64)>| map_hyp(
                    bytes@,
                    pos as int,
                    ev,
                ) implies ev.len() == cnt as int && enc_at(
                    bytes@,
                    p1 as int,
                    enc_entries(ev),
                ) by {
                    lemma_split_at(bytes@, pos as int, enc_u64(ev.len() as u64), enc_entries(ev));
                    assert(enc_at(bytes@, pos as int, enc_u64(ev.len() as u64)));
                    lemma_entries_min_len(ev);
                    assert(ev.len() <= bytes@.len());
                    assert(ev.len() < 0x10000000000000000int);
                    assert(cnt == ev.len() as u64);
                    assert(ev.len() == cnt as int);
                }
            }
            let mut es: Vec<TokenCount> = Vec::new();
            let mut cur = p1;
            let mut k: u64 = 0;
            proof {
                assert(crate::tokenmap::entries_view(es@) =~= Seq::<(Seq<char>, u64)>::empty());
                assert(enc_entries(crate::tokenmap::entries_view(es@)) =~= Seq::<u8>::empty());
                assert(bytes@.subrange(p1 as int, p1 as int) =~= Seq::<u8>::empty());
                assert forall|ev: Seq<(Seq<char>, u64)>| map_hyp(
                    bytes@,
                    pos as int,
                    ev,
                ) implies crate::tokenmap::entries_view(es@) == ev.take(k as int) by {
                    assert(ev.take(0) =~= Seq::<(Seq<char>, u64)>::empty());
                }
            }
            while k < cnt
                invariant
                    pos + 8 == p1,
                    p1 <= cur <= bytes@.len(),
                    k <= cnt,
                    crate::tokenmap::entries_view(es@).len() == k as int,
                    cur == p1 + enc_entries(crate::tokenmap::entries_view(es@)).len(),
                    bytes@.subrange(p1 as int, cur as int) == enc_entries(
                        crate::tokenmap::entries_view(es@),
                    ),
                    forall|ev: Seq<(Seq<char>, u64)>| #[trigger] map_hyp(bytes@, pos as int, ev)
                        ==> ev.len() == cnt as int && enc_at(bytes@, p1 as int, enc_entries(ev))
                        && crate::tokenmap::entries_view(es@) == ev.take(k as int),
                decreases cnt - k,
            {
                let ghost esv = crate::tokenmap::entries_view(es@);
                proof {
                    lemma_auto_spec_u64_to_from_le_bytes();
                    assert forall|ev: Seq<(Seq<char>, u64)>| map_hyp(
                        bytes@,
                        pos as int,
                        ev,
                    ) implies enc_at(bytes@, cur as int, enc_str(ev[k as int].0)) && enc_at(
                        bytes@,
                        cur + enc_str(ev[k as int].0).len(),
                        enc_u64(ev[k as int].1),
                    ) by {
                        assert(ev.len() == cnt as int);
                        assert(esv == ev.take(k as int));
                        lemma_map_entry_at(bytes@, p1 as int, ev, k as int, cur as int);
                    }
                }
                let stp = dec_str(bytes, cur);
                match stp {
                    None => {
                        proof {
                            assert forall|ev: Seq<(Seq<char>, u64)>| !map_hyp(
                                bytes@,
                                pos as int,
                                ev,
                            ) by {
                                if map_hyp(bytes@, pos as int, ev) {
                                    assert(enc_at(bytes@, cur as int, enc_str(ev[k as int].0)));
                                }
                            }
                        }
                        return None;
                    },
                    Some((sstr, c2)) => {
                        let nxt = dec_u64(bytes, c2);
                        match nxt {
                            None => {
                                proof {
                                    assert forall|ev: Seq<(Seq<char>, u64)>| !map_hyp(
                                        bytes@,
                                        pos as int,
                                        ev,
                                    ) by {
                                        if map_hyp(bytes@, pos as int, ev) {
                                            assert(sstr@ == ev[k as int].0);
                                            assert(c2 == cur + enc_str(ev[k as int].0).len());
                                            assert(enc_at(bytes@, c2 as int, enc_u64(
                                                ev[k as int].1,
                                            )));
                                        }
                                    }
                                }
                                return None;
                            },
                            Some((cv, c3)) => {
                                let ghost sv0 = sstr@;
                                proof {
                                    assert(stp matches Some(p) && p.0@ == sv0 && p.1 == c2);
                                    assert(c2 == cur + enc_str(sv0).len());
                                    assert(enc_at(bytes@, cur as int, enc_str(sv0)));
                                }
                                es.push(TokenCount { token: sstr, count: cv });
                                proof {
                                    let newv = crate::tokenmap::entries_view(es@);
                                    assert(newv =~= esv.push((sv0, cv)));
                                    assert(newv.drop_last() =~= esv);
                                    assert(enc_entries(newv) == enc_entries(esv) + enc_str(sv0)
                                        + enc_u64(cv));
                                    lemma_join_at(bytes@, cur as int, enc_str(sv0), enc_u64(cv));
                                    lemma_join_at(
                                        bytes@,
                                        p1 as int,
                                        enc_entries(esv),
                                        enc_str(sv0) + enc_u64(cv),
                                    );
                                    assert(enc_entries(esv) + enc_str(sv0) + enc_u64(cv)
                                        =~= enc_entries(esv) + (enc_str(sv0) + enc_u64(cv)));
                                    assert(enc_str(sv0).len() == c2 - cur);
                                    assert(enc_u64(cv).len() == 8);
                                    assert((enc_str(sv0) + enc_u64(cv)).len() == c3 - cur);
                                    assert(enc_entries(esv).len() == cur - p1);
                                    assert(bytes@.subrange(p1 as int, c3 as int) == enc_entries(
                                        esv,
                                    ) + (enc_str(sv0) + enc_u64(cv)));
                                    assert(bytes@.subrange(p1 as int, c3 as int) == enc_entries(
                                        newv,
                                    ));
                                    assert forall|ev: Seq<(Seq<char>, u64)>| map_hyp(
                                        bytes@,
                                        pos as int,
                                        ev,
                                    ) implies newv == ev.take(k as int + 1) by {
                                        assert(enc_at(bytes@, cur as int, enc_str(
                                            ev[k as int].0,
                                        )));
                                        assert(sv0 == ev[k as int].0);
                                        assert(c2 == cur + enc_str(ev[k as int].0).len());
                                        assert(enc_at(bytes@, c2 as int, enc_u64(
                                            ev[k as int].1,
                                        )));
                                        assert(cv == ev[k as int].1);
                                        assert(ev.take(k as int + 1).drop_last() =~= ev.take(
                                            k as int,
                                        ));
                                        assert(newv =~= ev.take(k as int + 1));
                                    }
                                }
                                cur = c3;
                                k = k + 1;
                            },
                        }
                    },
                }
            }
            let m = TokenMap { entries: es };
            proof {
                let mv = m@;
                assert(mv.len() as u64 == cnt);
                assert(enc_map(mv) == enc_u64(cnt) + enc_entries(mv));
                lemma_join_at(bytes@, pos as int, enc_u64(cnt), enc_entries(mv));
                assert(bytes@.subrange(pos as int, cur as int) == enc_u64(cnt) + enc_entries(
                    mv,
                ));
                assert(enc_at(bytes@, pos as int, enc_map(mv)));
                assert forall|ev: Seq<(Seq<char>, u64)>| map_hyp(
                    bytes@,
                    pos as int,
                    ev,
                ) implies mv == ev && cur == pos + enc_map(ev).len() by {
                    assert(mv == ev.take(k as int));
                    assert(ev.take(k as int) =~= ev);
                }
            }
            Some((m, cur))
        },
    }
}


/// What holds of a record parse for one candidate content.
pub open spec fn comic_hyp(b: Seq<u8>, pos: int, cv: ComicView) -> bool {
    enc_at(b, pos, enc_comic(cv))
}

/// Cumulative offsets of the record fields.
pub open spec fn coff(cv: ComicView, k: int) -> int
    decreases k,
{
    if k <= 0 {
        0
    } else if k == 1 {
        enc_str(cv.month).len() as int
    } else if k == 2 {
        coff(cv, 1) + 8
    } else if k == 3 {
        coff(cv, 2) + enc_str(cv.year).len()
    } else if k == 4 {
        coff(cv, 3) + enc_str(cv.day).len()
    } else if k == 5 {
        coff(cv, 4) + enc_str(cv.title).len()
    } else if k == 6 {
        coff(cv, 5) + enc_str(cv.alt).len()
    } else if k == 7 {
        coff(cv, 6) + enc_str(cv.img).len()
    } else {
        coff(cv, 7) + enc_str(cv.transcript).len()
    }
}

/// Within a well-placed record encoding, every field sits at its offset.
proof fn lemma_comic_fields_at(b: Seq<u8>, pos: int, cv: ComicView)
    requires
        comic_hyp(b, pos, cv),
    ensures
        enc_at(b, pos, enc_str(cv.month)),
        enc_at(b, pos + coff(cv, 1), enc_u64(cv.num as u64)),
        enc_at(b, pos + coff(cv, 2), enc_str(cv.year)),
        enc_at(b, pos + coff(cv, 3), enc_str(cv.day)),
        enc_at(b, pos + coff(cv, 4), enc_str(cv.title)),
        enc_at(b, pos + coff(cv, 5), enc_str(cv.alt)),
        enc_at(b, pos + coff(cv, 6), enc_str(cv.img)),
        enc_at(b, pos + coff(cv, 7), enc_str(cv.transcript)),
        enc_comic(cv).len() == coff(cv, 8),
{
    let a1 = enc_str(cv.month);
    let a2 = enc_u64(cv.num as u64);
    let a3 = enc_str(cv.year);
    let a4 = enc_str(cv.day);
    let a5 = enc_str(cv.title);
    let a6 = enc_str(cv.alt);
    let a7 = enc_str(cv.img);
    let a8 = enc_str(cv.transcript);
    lemma_auto_spec_u64_to_from_le_bytes();
    reveal_with_fuel(coff, 9);
    assert(enc_comic(cv) =~= a1 + (a2 + (a3 + (a4 + (a5 + (a6 + (a7 + a8)))))));
    assert(b.subrange(pos, pos + a1.len() + (a2 + (a3 + (a4 + (a5 + (a6 + (a7 + a8)))))).len())
        == a1 + (a2 + (a3 + (a4 + (a5 + (a6 + (a7 + a8)))))));
    lemma_split_at(b, pos, a1, a2 + (a3 + (a4 + (a5 + (a6 + (a7 + a8))))));
    lemma_split_at(b, pos + coff(cv, 1), a2, a3 + (a4 + (a5 + (a6 + (a7 + a8)))));
    lemma_split_at(b, pos + coff(cv, 2), a3, a4 + (a5 + (a6 + (a7 + a8))));
    lemma_split_at(b, pos + coff(cv, 3), a4, a5 + (a6 + (a7 + a8)));
    lemma_split_at(b, pos + coff(cv, 4), a5, a6 + (a7 + a8));
    lemma_split_at(b, pos + coff(cv, 5), a6, a7 + a8);
    lemma_split_at(b, pos + coff(cv, 6), a7, a8);
}

/// Reads one record.
#[verifier::rlimit(80)]
fn dec_comic(bytes: &[u8], pos: usize) -> (r: Option<(Comic, usize)>)
    requires
        pos <= bytes@.len(),
    ensures
        r matches Some(p) ==> pos <= p.1 <= bytes@.len() && p.1 == pos + enc_comic(p.0@).len()
            && enc_at(bytes@, pos as int, enc_comic(p.0@)),
        forall|cv: ComicView| #[trigger] comic_hyp(bytes@, pos as int, cv) ==> (r matches Some(
            p,
        ) && p.0@ == cv && p.1 == pos + enc_comic(cv).len()),
{
    proof {
        lemma_auto_spec_u64_to_from_le_bytes();
    }
    let s1 = dec_str(bytes, pos);
    if s1.is_none() {
        proof {
            assert forall|cv: ComicView| !comic_hyp(bytes@, pos as int, cv) by {
                if comic_hyp(bytes@, pos as int, cv) {
                    lemma_comic_fields_at(bytes@, pos as int, cv);
                }
            }
        }
        return None;
    }
    let (month, c1) = s1.unwrap();
    let n1 = dec_u64(bytes, c1);
    if n1.is_none() {
        proof {
            assert forall|cv: ComicView| !comic_hyp(bytes@, pos as int, cv) by {
                if comic_hyp(bytes@, pos as int, cv) {
                    lemma_comic_fields_at(bytes@, pos as int, cv);
                    assert(c1 == pos + coff(cv, 1));
                }
            }
        }
        return None;
    }
    let (numv, c2) = n1.unwrap();
    if numv > 0xFFFF {
        proof {
            assert forall|cv: ComicView| !comic_hyp(bytes@, pos as int, cv) by {
                if comic_hyp(bytes@, pos as int, cv) {
                    lemma_comic_fields_at(bytes@, pos as int, cv);
                    assert(c1 == pos + coff(cv, 1));
                    assert(numv == cv.num as u64);
                }
            }
        }
        return None;
    }
    let s2 = dec_str(bytes, c2);
    if s2.is_none() {
        proof {
            assert forall|cv: ComicView| !comic_hyp(bytes@, pos as int, cv) by {
                if comic_hyp(bytes@, pos as int, cv) {
                    lemma_comic_fields_at(bytes@, pos as int, cv);
                    assert(c1 == pos + coff(cv, 1));
                    assert(c2 == pos + coff(cv, 2));
                }
            }
        }
        return None;
    }
    let (year, c3) = s2.unwrap();
    let s3 = dec_str(bytes, c3);
    if s3.is_none() {
        proof {
            assert forall|cv: ComicView| !comic_hyp(bytes@, pos as int, cv) by {
                if comic_hyp(bytes@, pos as int, cv) {
                    lemma_comic_fields_at(bytes@, pos as int, cv);
                    assert(c1 == pos + coff(cv, 1));
                    assert(c2 == pos + coff(cv, 2));
                    assert(year@ == cv.year && c3 == pos + coff(cv, 3));
                }
            }
        }
        return None;
    }
    let (day, c4) = s3.unwrap();
    let s4 = dec_str(bytes, c4);
    if s4.is_none() {
        proof {
            assert forall|cv: ComicView| !comic_hyp(bytes@, pos as int, cv) by {
                if comic_hyp(bytes@, pos as int, cv) {
                    lemma_comic_fields_at(bytes@, pos as int, cv);
                    assert(c1 == pos + coff(cv, 1));
                    assert(c2 == pos + coff(cv, 2));
                    assert(year@ == cv.year && c3 == pos + coff(cv, 3));
                    assert(day@ == cv.day && c4 == pos + coff(cv, 4));
                }
            }
        }
        return None;
    }
    let (title, c5) = s4.unwrap();
    let s5 = dec_str(bytes, c5);
    if s5.is_none() {
        proof {
            assert forall|cv: ComicView| !comic_hyp(bytes@, pos as int, cv) by {
                if comic_hyp(bytes@, pos as int, cv) {
                    lemma_comic_fields_at(bytes@, pos as int, cv);
                    assert(c1 == pos + coff(cv, 1));
                    assert(c2 == pos + coff(cv, 2));
                    assert(year@ == cv.year && c3 == pos + coff(cv, 3));
                    assert(day@ == cv.day && c4 == pos + coff(cv, 4));
                    assert(title@ == cv.title && c5 == pos + coff(cv, 5));
                }
            }
        }
        return None;
    }
    let (alt, c6) = s5.unwrap();
    let s6 = dec_str(bytes, c6);
    if s6.is_none() {
        proof {
            assert forall|cv: ComicView| !comic_hyp(bytes@, pos as int, cv) by {
                if comic_hyp(bytes@, pos as int, cv) {
                    lemma_comic_fields_at(bytes@, pos as int, cv);
                    assert(c1 == pos + coff(cv, 1));
                    assert(c2 == pos + coff(cv, 2));
                    assert(year@ == cv.year && c3 == pos + coff(cv, 3));
                    assert(day@ == cv.day && c4 == pos + coff(cv, 4));
                    assert(title@ == cv.title && c5 == pos + coff(cv, 5));
                    assert(alt@ == cv.alt && c6 == pos + coff(cv, 6));
                }
            }
        }
        return None;
    }
    let (img, c7) = s6.unwrap();
    let s7 = dec_str(bytes, c7);
    if s7.is_none() {
        proof {
            assert forall|cv: ComicView| !comic_hyp(bytes@, pos as int, cv) by {
                if comic_hyp(bytes@, pos as int, cv) {
                    lemma_comic_fields_at(bytes@, pos as int, cv);
                    assert(c1 == pos + coff(cv, 1));
                    assert(c2 == pos + coff(cv, 2));
                    assert(year@ == cv.year && c3 == pos + coff(cv, 3));
                    assert(day@ == cv.day && c4 == pos + coff(cv, 4));
                    assert(title@ == cv.title && c5 == pos + coff(cv, 5));
                    assert(alt@ == cv.alt && c6 == pos + coff(cv, 6));
                    assert(img@ == cv.img && c7 == pos + coff(cv, 7));
                }
            }
        }
        return None;
    }
    let (transcript, c8) = s7.unwrap();
    let c = Comic {
        month,
        num: numv as u16,
        year,
        day,
        title,
        alt,
        img,
        transcript,
    };
    proof {
        let a1 = enc_str(c@.month);
        let a2 = enc_u64(c@.num as u64);
        let a3 = enc_str(c@.year);
        let a4 = enc_str(c@.day);
        let a5 = enc_str(c@.title);
        let a6 = enc_str(c@.alt);
        let a7 = enc_str(c@.img);
        let a8 = enc_str(c@.transcript);
        lemma_join_at(bytes@, c6 as int, a7, a8);
        lemma_join_at(bytes@, c5 as int, a6, a7 + a8);
        lemma_join_at(bytes@, c4 as int, a5, a6 + (a7 + a8));
        lemma_join_at(bytes@, c3 as int, a4, a5 + (a6 + (a7 + a8)));
        lemma_join_at(bytes@, c2 as int, a3, a4 + (a5 + (a6 + (a7 + a8))));
        lemma_join_at(bytes@, c1 as int, a2, a3 + (a4 + (a5 + (a6 + (a7 + a8)))));
        lemma_join_at(bytes@, pos as int, a1, a2 + (a3 + (a4 + (a5 + (a6 + (a7 + a8))))));
        assert(enc_comic(c@) =~= a1 + (a2 + (a3 + (a4 + (a5 + (a6 + (a7 + a8)))))));
        assert(enc_at(bytes@, pos as int, enc_comic(c@)));
        assert forall|cv: ComicView| comic_hyp(bytes@, pos as int, cv) implies c@ == cv && c8
            == pos + enc_comic(cv).len() by {
            lemma_comic_fields_at(bytes@, pos as int, cv);
            assert(c1 == pos + coff(cv, 1));
            assert(c2 == pos + coff(cv, 2));
            assert(year@ == cv.year && c3 == pos + coff(cv, 3));
            assert(day@ == cv.day && c4 == pos + coff(cv, 4));
            assert(title@ == cv.title && c5 == pos + coff(cv, 5));
            assert(alt@ == cv.alt && c6 == pos + coff(cv, 6));
            assert(img@ == cv.img && c7 == pos + coff(cv, 7));
            assert(transcript@ == cv.transcript && c8 == pos + coff(cv, 8));
            assert(numv == cv.num as u64);
            assert(c@.num == cv.num);
        }
    }
    Some((c, c8))
}


/// What holds of an indexed-record parse for one candidate content.
pub open spec fn index_hyp(b: Seq<u8>, pos: int, iv: ComicIndexView) -> bool {
    enc_at(b, pos, enc_index(iv))
}

/// Cumulative offsets of the indexed-record parts.
pub open spec fn ioff(iv: ComicIndexView, k: int) -> int
    decreases k,
{
    if k <= 0 {
        0
    } else if k == 1 {
        enc_map(iv.title_freq).len() as int
    } else if k == 2 {
        ioff(iv, 1) + 8
    } else if k == 3 {
        ioff(iv, 2) + enc_map(iv.alt_freq).len()
    } else if k == 4 {
        ioff(iv, 3) + 8
    } else {
        ioff(iv, 4) + enc_comic(iv.comic).len()
    }
}

/// Within a well-placed indexed-record encoding, every part sits at its
/// offset.
proof fn lemma_index_fields_at(b: Seq<u8>, pos: int, iv: ComicIndexView)
    requires
        index_hyp(b, pos, iv),
    ensures
        enc_at(b, pos, enc_map(iv.title_freq)),
        enc_at(b, pos + ioff(iv, 1), enc_u64(iv.title_len)),
        enc_at(b, pos + ioff(iv, 2), enc_map(iv.alt_freq)),
        enc_at(b, pos + ioff(iv, 3), enc_u64(iv.alt_len)),
        enc_at(b, pos + ioff(iv, 4), enc_comic(iv.comic)),
        enc_index(iv).len() == ioff(iv, 5),
{
    let a1 = enc_map(iv.title_freq);
    let a2 = enc_u64(iv.title_len);
    let a3 = enc_map(iv.alt_freq);
    let a4 = enc_u64(iv.alt_len);
    let a5 = enc_comic(iv.comic);
    lemma_auto_spec_u64_to_from_le_bytes();
    reveal_with_fuel(ioff, 6);
    assert(enc_index(iv) =~= a1 + (a2 + (a3 + (a4 + a5))));
    assert(b.subrange(pos, pos + a1.len() + (a2 + (a3 + (a4 + a5))).len()) == a1 + (a2 + (a3 + (
    a4 + a5))));
    lemma_split_at(b, pos, a1, a2 + (a3 + (a4 + a5)));
    lemma_split_at(b, pos + ioff(iv, 1), a2, a3 + (a4 + a5));
    lemma_split_at(b, pos + ioff(iv, 2), a3, a4 + a5);
    lemma_split_at(b, pos + ioff(iv, 3), a4, a5);
}

/// Reads one indexed record.
#[verifier::rlimit(80)]
fn dec_index(bytes: &[u8], pos: usize) -> (r: Option<(ComicIndex, usize)>)
    requires
        pos <= bytes@.len(),
    ensures
        r matches Some(p) ==> pos <= p.1 <= bytes@.len() && p.1 == pos + enc_index(p.0@).len()
            && enc_at(bytes@, pos as int, enc_index(p.0@)),
        forall|iv: ComicIndexView| #[trigger] index_hyp(bytes@, pos as int, iv) ==> (
        r matches Some(p) && p.0@ == iv && p.1 == pos + enc_index(iv).len()),
{
    proof {
        lemma_auto_spec_u64_to_from_le_bytes();
    }
    let m1 = dec_map(bytes, pos);
    if m1.is_none() {
        proof {
            assert forall|iv: ComicIndexView| !index_hyp(bytes@, pos as int, iv) by {
                if index_hyp(bytes@, pos as int, iv) {
                    lemma_index_fields_at(bytes@, pos as int, iv);
                    assert(map_hyp(bytes@, pos as int, iv.title_freq));
                }
            }
        }
        return None;
    }
    let (tf, c1) = m1.unwrap();
    let n1 = dec_u64(bytes, c1);
    if n1.is_none() {
        proof {
            assert forall|iv: ComicIndexView| !index_hyp(bytes@, pos as int, iv) by {
                if index_hyp(bytes@, pos as int, iv) {
                    lemma_index_fields_at(bytes@, pos as int, iv);
                    assert(map_hyp(bytes@, pos as int, iv.title_freq));
                    assert(c1 == pos + ioff(iv, 1));
                }
            }
        }
        return None;
    }
    let (tl, c2) = n1.unwrap();
    let m2 = dec_map(bytes, c2);
    if m2.is_none() {
        proof {
            assert forall|iv: ComicIndexView| !index_hyp(bytes@, pos as int, iv) by {
                if index_hyp(bytes@, pos as int, iv) {
                    lemma_index_fields_at(bytes@, pos as int, iv);
                    assert(map_hyp(bytes@, pos as int, iv.title_freq));
                    assert(c1 == pos + ioff(iv, 1));
                    assert(c2 == pos + ioff(iv, 2));
                    assert(map_hyp(bytes@, c2 as int, iv.alt_freq));
                }
            }
        }
        return None;
    }
    let (af, c3) = m2.unwrap();
    let n2 = dec_u64(bytes, c3);
    if n2.is_none() {
        proof {
            assert forall|iv: ComicIndexView| !index_hyp(bytes@, pos as int, iv) by {
                if index_hyp(bytes@, pos as int, iv) {
                    lemma_index_fields_at(bytes@, pos as int, iv);
                    assert(map_hyp(bytes@, pos as int, iv.title_freq));
                    assert(c1 == pos + ioff(iv, 1));
                    assert(c2 == pos + ioff(iv, 2));
                    assert(map_hyp(bytes@, c2 as int, iv.alt_freq));
                    assert(af@ == iv.alt_freq && c3 == pos + ioff(iv, 3));
                }
            }
        }
        return None;
    }
    let (al, c4) = n2.unwrap();
    let cm = dec_comic(bytes, c4);
    if cm.is_none() {
        proof {
            assert forall|iv: ComicIndexView| !index_hyp(bytes@, pos as int, iv) by {
                if index_hyp(bytes@, pos as int, iv) {
                    lemma_index_fields_at(bytes@, pos as int, iv);
                    assert(map_hyp(bytes@, pos as int, iv.title_freq));
                    assert(c1 == pos + ioff(iv, 1));
                    assert(c2 == pos + ioff(iv, 2));
                    assert(map_hyp(bytes@, c2 as int, iv.alt_freq));
                    assert(af@ == iv.alt_freq && c3 == pos + ioff(iv, 3));
                    assert(c4 == pos + ioff(iv, 4));
                    assert(comic_hyp(bytes@, c4 as int, iv.comic));
                }
            }
        }
        return None;
    }
    let (comic, c5) = cm.unwrap();
    let ix = ComicIndex { title_freq: tf, title_len: tl, alt_freq: af, alt_len: al, comic };
    proof {
        let a1 = enc_map(ix@.title_freq);
        let a2 = enc_u64(ix@.title_len);
        let a3 = enc_map(ix@.alt_freq);
        let a4 = enc_u64(ix@.alt_len);
        let a5 = enc_comic(ix@.comic);
        lemma_join_at(bytes@, c3 as int, a4, a5);
        lemma_join_at(bytes@, c2 as int, a3, a4 + a5);
        lemma_join_at(bytes@, c1 as int, a2, a3 + (a4 + a5));
        lemma_join_at(bytes@, pos as int, a1, a2 + (a3 + (a4 + a5)));
        assert(enc_index(ix@) =~= a1 + (a2 + (a3 + (a4 + a5))));
        assert(enc_at(bytes@, pos as int, enc_index(ix@)));
        assert forall|iv: ComicIndexView| index_hyp(bytes@, pos as int, iv) implies ix@ == iv
            && c5 == pos + enc_index(iv).len() by {
            lemma_index_fields_at(bytes@, pos as int, iv);
            assert(map_hyp(bytes@, pos as int, iv.title_freq));
            assert(tf@ == iv.title_freq && c1 == pos + ioff(iv, 1));
            assert(tl == iv.title_len && c2 == pos + ioff(iv, 2));
            assert(map_hyp(bytes@, c2 as int, iv.alt_freq));
            assert(af@ == iv.alt_freq && c3 == pos + ioff(iv, 3));
            assert(al == iv.alt_len && c4 == pos + ioff(iv, 4));
            assert(comic_hyp(bytes@, c4 as int, iv.comic));
            assert(comic@ == iv.comic && c5 == pos + ioff(iv, 5));
        }
    }
    Some((ix, c5))
}


/// Indexed-record encodings from position `k` on.
pub open spec fn enc_indices_from(sv: Seq<ComicIndexView>, k: int) -> Seq<u8>
    decreases sv.len() - k,
{
    if k < 0 || k >= sv.len() {
        Seq::empty()
    } else {
        enc_index(sv[k]) + enc_indices_from(sv, k + 1)
    }
}

/// The record-list encoding splits at any position.
proof fn lemma_indices_bridge(sv: Seq<ComicIndexView>, k: int)
    requires
        0 <= k <= sv.len(),
    ensures
        enc_indices(sv) == enc_indices(sv.take(k)) + enc_indices_from(sv, k),
    decreases sv.len() - k,
{
    if k == sv.len() {
        assert(sv.take(k) =~= sv);
        assert(enc_indices(sv) =~= enc_indices(sv.take(k)) + enc_indices_from(sv, k));
    } else {
        lemma_indices_bridge(sv, k + 1);
        assert(sv.take(k + 1).drop_last() =~= sv.take(k));
        assert(sv.take(k + 1).last() == sv[k]);
        assert(enc_indices(sv.take(k + 1)) == enc_indices(sv.take(k)) + enc_index(sv[k]));
        assert(enc_indices(sv) =~= enc_indices(sv.take(k)) + enc_indices_from(sv, k));
    }
}

/// A record list never encodes shorter than its length.
proof fn lemma_indices_min_len(sv: Seq<ComicIndexView>)
    ensures
        enc_indices(sv).len() >= sv.len(),
    decreases sv.len(),
{
    if sv.len() > 0 {
        lemma_indices_min_len(sv.drop_last());
        lemma_auto_spec_u64_to_from_le_bytes();
    }
}

/// Within a well-placed record-list encoding, record `k` sits at its cursor.
proof fn lemma_index_at(b: Seq<u8>, p1: int, sv: Seq<ComicIndexView>, k: int, cur: int)
    requires
        enc_at(b, p1, enc_indices(sv)),
        0 <= k < sv.len(),
        cur == p1 + enc_indices(sv.take(k)).len(),
    ensures
        index_hyp(b, cur, sv[k]),
{
    lemma_indices_bridge(sv, k);
    lemma_split_at(b, p1, enc_indices(sv.take(k)), enc_indices_from(sv, k));
    assert(enc_indices_from(sv, k) =~= enc_index(sv[k]) + enc_indices_from(sv, k + 1));
    assert(b.subrange(cur, cur + enc_index(sv[k]).len() + enc_indices_from(sv, k + 1).len())
        == enc_index(sv[k]) + enc_indices_from(sv, k + 1));
    lemma_split_at(b, cur, enc_index(sv[k]), enc_indices_from(sv, k + 1));
}

/// The content of an indexed-record list.
pub open spec fn indices_view(s: Seq<ComicIndex>) -> Seq<ComicIndexView> {
    Seq::new(s.len(), |i: int| s[i]@)
}

/// Decodes a snapshot. Exactly the byte strings this module writes are
/// accepted, and the decoded corpus carries exactly the encoded content:
/// loading what was persisted restores the corpus.
#[verifier::rlimit(80)]
pub fn decode_document(bytes: &[u8]) -> (r: Option<Document>)
    ensures
        r matches Some(d) ==> bytes@ == enc_doc(d@),
        forall|dv: DocumentView| bytes@ == enc_doc(dv) ==> (r matches Some(d) && d@ == dv),
{
    proof {
        lemma_auto_spec_u64_to_from_le_bytes();
    }
    let blen = bytes.len();
    proof {
        assert forall|dv: DocumentView| bytes@ == enc_doc(dv) implies enc_at(
            bytes@,
            0,
            enc_u64(dv.comics.len() as u64),
        ) && enc_at(bytes@, 8, enc_indices(dv.comics)) && dv.comics.len() < 0x10000000000000000int
            by {
            let a1 = enc_u64(dv.comics.len() as u64);
            let a2 = enc_indices(dv.comics);
            let a3 = enc_map(dv.frequency.alt_freq);
            let a4 = enc_map(dv.frequency.title_freq);
            assert(enc_doc(dv) =~= a1 + (a2 + (a3 + a4)));
            assert(bytes@.subrange(0, 0 + a1.len() + (a2 + (a3 + a4)).len() as int) == a1 + (a2 + (
            a3 + a4)));
            lemma_split_at(bytes@, 0, a1, a2 + (a3 + a4));
            lemma_split_at(bytes@, a1.len() as int, a2, a3 + a4);
            lemma_indices_min_len(dv.comics);
        }
    }
    let first = dec_u64(bytes, 0);
    if first.is_none() {
        proof {
            assert forall|dv: DocumentView| bytes@ != enc_doc(dv) by {
                if bytes@ == enc_doc(dv) {
                    assert(enc_at(bytes@, 0, enc_u64(dv.comics.len() as u64)));
                }
            }
        }
        return None;
    }
    let (cnt, p1) = first.unwrap();
    let mut ixs: Vec<ComicIndex> = Vec::new();
    let mut cur = p1;
    let mut k: u64 = 0;
    proof {
        assert(indices_view(ixs@) =~= Seq::<ComicIndexView>::empty());
        assert(enc_indices(indices_view(ixs@)) =~= Seq::<u8>::empty());
        assert(bytes@.subrange(p1 as int, p1 as int) =~= Seq::<u8>::empty());
        assert forall|dv: DocumentView| bytes@ == enc_doc(dv) implies indices_view(ixs@)
            == dv.comics.take(k as int) && dv.comics.len() == cnt as int by {
            assert(dv.comics.take(0) =~= Seq::<ComicIndexView>::empty());
            assert(enc_at(bytes@, 0, enc_u64(dv.comics.len() as u64)));
        }
    }
    while k < cnt
        invariant
            p1 == 8,
            p1 <= cur <= bytes@.len(),
            k <= cnt,
            indices_view(ixs@).len() == k as int,
            cur == p1 + enc_indices(indices_view(ixs@)).len(),
            bytes@.subrange(p1 as int, cur as int) == enc_indices(indices_view(ixs@)),
            forall|dv: DocumentView| bytes@ == enc_doc(dv) ==> indices_view(ixs@)
                == dv.comics.take(k as int) && dv.comics.len() == cnt as int && enc_at(
                bytes@,
                8,
                enc_indices(dv.comics),
            ),
        decreases cnt - k,
    {
        let ghost isv = indices_view(ixs@);
        proof {
            lemma_auto_spec_u64_to_from_le_bytes();
            assert forall|dv: DocumentView| bytes@ == enc_doc(dv) implies index_hyp(
                bytes@,
                cur as int,
                dv.comics[k as int],
            ) by {
                lemma_index_at(bytes@, 8, dv.comics, k as int, cur as int);
            }
        }
        let nxt = dec_index(bytes, cur);
        match nxt {
            None => {
                proof {
                    assert forall|dv: DocumentView| bytes@ != enc_doc(dv) by {
                        if bytes@ == enc_doc(dv) {
                            assert(index_hyp(bytes@, cur as int, dv.comics[k as int]));
                        }
                    }
                }
                return None;
            },
            Some((ix, c2)) => {
                let ghost ixv = ix@;
                ixs.push(ix);
                proof {
                    let newv = indices_view(ixs@);
                    assert(newv =~= isv.push(ixv));
                    assert(newv.drop_last() =~= isv);
                    assert(enc_indices(newv) == enc_indices(isv) + enc_index(ixv));
                    lemma_join_at(bytes@, p1 as int, enc_indices(isv), enc_index(ixv));
                    assert(bytes@.subrange(p1 as int, c2 as int) == enc_indices(newv));
                    assert forall|dv: DocumentView| bytes@ == enc_doc(dv) implies newv
                        == dv.comics.take(k as int + 1) by {
                        assert(index_hyp(bytes@, cur as int, dv.comics[k as int]));
                        assert(ixv == dv.comics[k as int]);
                        assert(dv.comics.take(k as int + 1).drop_last() =~= dv.comics.take(
                            k as int,
                        ));
                        assert(newv =~= dv.comics.take(k as int + 1));
                    }
                }
                cur = c2;
                k = k + 1;
            },
        }
    }
    proof {
        assert forall|dv: DocumentView| bytes@ == enc_doc(dv) implies map_hyp(
            bytes@,
            cur as int,
            dv.frequency.alt_freq,
        ) by {
            let a1 = enc_u64(dv.comics.len() as u64);
            let a2 = enc_indices(dv.comics);
            let a3 = enc_map(dv.frequency.alt_freq);
            let a4 = enc_map(dv.frequency.title_freq);
            assert(enc_doc(dv) =~= a1 + (a2 + (a3 + a4)));
            assert(bytes@.subrange(0, 0 + a1.len() + (a2 + (a3 + a4)).len() as int) == a1 + (a2 + (
            a3 + a4)));
            lemma_split_at(bytes@, 0, a1, a2 + (a3 + a4));
            lemma_split_at(bytes@, 8, a2, a3 + a4);
            assert(dv.comics.take(k as int) =~= dv.comics);
            assert(cur == 8 + a2.len());
            lemma_split_at(bytes@, cur as int, a3, a4);
        }
    }
    let fm1 = dec_map(bytes, cur);
    if fm1.is_none() {
        proof {
            assert forall|dv: DocumentView| bytes@ != enc_doc(dv) by {
                if bytes@ == enc_doc(dv) {
                    assert(map_hyp(bytes@, cur as int, dv.frequency.alt_freq));
                }
            }
        }
        return None;
    }
    let (am, c3) = fm1.unwrap();
    proof {
        assert forall|dv: DocumentView| bytes@ == enc_doc(dv) implies map_hyp(
            bytes@,
            c3 as int,
            dv.frequency.title_freq,
        ) by {
            let a1 = enc_u64(dv.comics.len() as u64);
            let a2 = enc_indices(dv.comics);
            let a3 = enc_map(dv.frequency.alt_freq);
            let a4 = enc_map(dv.frequency.title_freq);
            assert(enc_doc(dv) =~= a1 + (a2 + (a3 + a4)));
            assert(bytes@.subrange(0, 0 + a1.len() + (a2 + (a3 + a4)).len() as int) == a1 + (a2 + (
            a3 + a4)));
            lemma_split_at(bytes@, 0, a1, a2 + (a3 + a4));
            lemma_split_at(bytes@, 8, a2, a3 + a4);
            assert(dv.comics.take(k as int) =~= dv.comics);
            assert(map_hyp(bytes@, cur as int, dv.frequency.alt_freq));
            assert(am@ == dv.frequency.alt_freq);
            lemma_split_at(bytes@, cur as int, a3, a4);
            assert(c3 == cur + a3.len());
        }
    }
    let fm2 = dec_map(bytes, c3);
    if fm2.is_none() {
        proof {
            assert forall|dv: DocumentView| bytes@ != enc_doc(dv) by {
                if bytes@ == enc_doc(dv) {
                    assert(map_hyp(bytes@, c3 as int, dv.frequency.title_freq));
                }
            }
        }
        return None;
    }
    let (tm, c4) = fm2.unwrap();
    if c4 != blen {
        proof {
            assert forall|dv: DocumentView| bytes@ != enc_doc(dv) by {
                if bytes@ == enc_doc(dv) {
                    assert(map_hyp(bytes@, c3 as int, dv.frequency.title_freq));
                    assert(tm@ == dv.frequency.title_freq);
                    let a1 = enc_u64(dv.comics.len() as u64);
                    let a2 = enc_indices(dv.comics);
                    let a3 = enc_map(dv.frequency.alt_freq);
                    let a4 = enc_map(dv.frequency.title_freq);
                    assert(enc_doc(dv).len() == a1.len() + a2.len() + a3.len() + a4.len());
                    assert(dv.comics.take(k as int) =~= dv.comics);
                    assert(c4 == blen as int);
                }
            }
        }
        return None;
    }
    let d = Document {
        comics: ixs,
        frequency: ComicFrequency { alt_freq: am, title_freq: tm },
    };
    proof {
        let dvv = d@;
        assert(dvv.comics =~= indices_view(d.comics@));
        assert(dvv.comics.len() as u64 == cnt);
        lemma_join_at(bytes@, p1 as int, enc_indices(dvv.comics), enc_map(dvv.frequency.alt_freq));
        lemma_join_at(
            bytes@,
            p1 as int,
            enc_indices(dvv.comics) + enc_map(dvv.frequency.alt_freq),
            enc_map(dvv.frequency.title_freq),
        );
        lemma_join_at(
            bytes@,
            0,
            enc_u64(cnt),
            enc_indices(dvv.comics) + enc_map(dvv.frequency.alt_freq) + enc_map(
                dvv.frequency.title_freq,
            ),
        );
        assert(enc_doc(dvv) =~= enc_u64(cnt) + (enc_indices(dvv.comics) + enc_map(
            dvv.frequency.alt_freq,
        ) + enc_map(dvv.frequency.title_freq)));
        assert(bytes@.subrange(0, blen as int) =~= bytes@);
        assert(bytes@ == enc_doc(dvv));
        assert forall|dv: DocumentView| bytes@ == enc_doc(dv) implies dvv == dv by {
            assert(dvv.comics == dv.comics.take(k as int));
            assert(dv.comics.take(k as int) =~= dv.comics);
            assert(map_hyp(bytes@, cur as int, dv.frequency.alt_freq));
            assert(am@ == dv.frequency.alt_freq);
            assert(map_hyp(bytes@, c3 as int, dv.frequency.title_freq));
            assert(tm@ == dv.frequency.title_freq);
        }
    }
    Some(d)
}

} // verus!
