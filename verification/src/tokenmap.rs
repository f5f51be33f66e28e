//! Insertion-ordered token -> count maps with unique keys.
//!
//! These maps back both the per-item term-frequency tables and the
//! corpus-wide document-frequency aggregate. Keys are kept unique and in
//! first-insertion order, so the content of a map is a plain sequence of
//! (token, count) pairs.

use crate::strutil::str_eq;
use vstd::prelude::*;

verus! {

/// One token with its count.
#[derive(Debug, PartialEq, Eq)]
pub struct TokenCount {
    pub token: String,
    pub count: u64,
}

impl View for TokenCount {
    type V = (Seq<char>, u64);

    open spec fn view(&self) -> (Seq<char>, u64) {
        (self.token@, self.count)
    }
}

/// Token -> count map; entries stand in first-insertion order.
#[derive(Debug, PartialEq, Eq)]
pub struct TokenMap {
    pub entries: Vec<TokenCount>,
}

/// The content of an entry list.
pub open spec fn entries_view(s: Seq<TokenCount>) -> Seq<(Seq<char>, u64)> {
    Seq::new(s.len(), |i: int| s[i]@)
}

impl View for TokenMap {
    type V = Seq<(Seq<char>, u64)>;

    open spec fn view(&self) -> Seq<(Seq<char>, u64)> {
        entries_view(self.entries@)
    }
}

/// Keys are pairwise distinct.
pub open spec fn entries_wf(s: Seq<(Seq<char>, u64)>) -> bool {
    forall|i: int, j: int| 0 <= i < j < s.len() ==> (#[trigger] s[i]).0 != (#[trigger] s[j]).0
}

/// The count stored for a token, if any.
pub open spec fn lookup(s: Seq<(Seq<char>, u64)>, t: Seq<char>) -> Option<u64>
    decreases s.len(),
{
    if s.len() == 0 {
        None
    } else if s[0].0 == t {
        Some(s[0].1)
    } else {
        lookup(s.drop_first(), t)
    }
}

/// The count stored for a token, with 0 for an absent token.
pub open spec fn lookup_nat(s: Seq<(Seq<char>, u64)>, t: Seq<char>) -> nat {
    match lookup(s, t) {
        Some(c) => c as nat,
        None => 0,
    }
}

/// Successor that cannot leave `u64`.
pub open spec fn add_one(c: u64) -> u64 {
    if c == u64::MAX {
        c
    } else {
        (c + 1) as u64
    }
}

/// The map after counting one more occurrence of `t`.
pub open spec fn bump(s: Seq<(Seq<char>, u64)>, t: Seq<char>) -> Seq<(Seq<char>, u64)> {
    if exists|i: int| 0 <= i < s.len() && (#[trigger] s[i]).0 == t {
        Seq::new(
            s.len(),
            |i: int|
                if s[i].0 == t {
                    (s[i].0, add_one(s[i].1))
                } else {
                    s[i]
                },
        )
    } else {
        s.push((t, 1u64))
    }
}

/// `lookup` returns the entry at the first index holding the key.
pub proof fn lemma_lookup_at(s: Seq<(Seq<char>, u64)>, i: int)
    requires
        0 <= i < s.len(),
        forall|j: int| 0 <= j < i ==> (#[trigger] s[j]).0 != s[i].0,
    ensures
        lookup(s, s[i].0) == Some(s[i].1),
    decreases i,
{
    if i > 0 {
        assert(s[0].0 != s[i].0);
        assert(s.drop_first()[i - 1] == s[i]);
        assert(forall|j: int|
            0 <= j < i - 1 ==> (#[trigger] s.drop_first()[j]).0 != s.drop_first()[i - 1].0);
        lemma_lookup_at(s.drop_first(), i - 1);
    }
}

/// `lookup` misses a key held by no entry.
pub proof fn lemma_lookup_none(s: Seq<(Seq<char>, u64)>, t: Seq<char>)
    requires
        forall|j: int| 0 <= j < s.len() ==> (#[trigger] s[j]).0 != t,
    ensures
        lookup(s, t) == None::<u64>,
    decreases s.len(),
{
    if s.len() > 0 {
        lemma_lookup_none(s.drop_first(), t);
    }
}

/// How `bump` changes what `lookup` sees: the bumped key counts one more,
/// every other key is untouched, and keys stay unique.
pub proof fn lemma_bump_lookup(s: Seq<(Seq<char>, u64)>, t: Seq<char>)
    requires
        entries_wf(s),
    ensures
        entries_wf(bump(s, t)),
        lookup(bump(s, t), t) == match lookup(s, t) {
            Some(c) => Some(add_one(c)),
            None => Some(1u64),
        },
        forall|u: Seq<char>| u != t ==> #[trigger] lookup(bump(s, t), u) == lookup(s, u),
{
    let b = bump(s, t);
    if exists|i: int| 0 <= i < s.len() && (#[trigger] s[i]).0 == t {
        let i0 = choose|i: int| 0 <= i < s.len() && (#[trigger] s[i]).0 == t;
        assert(forall|j: int| 0 <= j < s.len() ==> (#[trigger] b[j]).0 == s[j].0);
        assert(entries_wf(b));
        assert(forall|j: int| 0 <= j < i0 ==> (#[trigger] s[j]).0 != s[i0].0);
        lemma_lookup_at(s, i0);
        assert(forall|j: int| 0 <= j < i0 ==> (#[trigger] b[j]).0 != b[i0].0);
        lemma_lookup_at(b, i0);
        assert(b[i0] == (s[i0].0, add_one(s[i0].1)));
        assert forall|u: Seq<char>| u != t implies #[trigger] lookup(b, u) == lookup(s, u) by {
            if exists|j: int| 0 <= j < s.len() && (#[trigger] s[j]).0 == u {
                let j0 = choose|j: int| 0 <= j < s.len() && (#[trigger] s[j]).0 == u;
                assert(forall|j: int| 0 <= j < j0 ==> (#[trigger] s[j]).0 != s[j0].0);
                lemma_lookup_at(s, j0);
                assert(b[j0].0 == u && b[j0].1 == s[j0].1);
                assert(forall|j: int| 0 <= j < j0 ==> (#[trigger] b[j]).0 != b[j0].0);
                lemma_lookup_at(b, j0);
            } else {
                assert(forall|j: int| 0 <= j < s.len() ==> (#[trigger] s[j]).0 != u);
                lemma_lookup_none(s, u);
                assert(forall|j: int| 0 <= j < b.len() ==> (#[trigger] b[j]).0 != u);
                lemma_lookup_none(b, u);
            }
        }
    } else {
        assert(forall|j: int| 0 <= j < s.len() ==> (#[trigger] s[j]).0 != t);
        assert(b == s.push((t, 1u64)));
        assert(forall|j: int| 0 <= j < s.len() ==> #[trigger] b[j] == s[j]);
        assert(b[s.len() as int].0 == t);
        assert(entries_wf(b));
        lemma_lookup_none(s, t);
        lemma_lookup_at(b, s.len() as int);
        assert forall|u: Seq<char>| u != t implies #[trigger] lookup(b, u) == lookup(s, u) by {
            if exists|j: int| 0 <= j < s.len() && (#[trigger] s[j]).0 == u {
                let j0 = choose|j: int| 0 <= j < s.len() && (#[trigger] s[j]).0 == u;
                assert(forall|j: int| 0 <= j < j0 ==> (#[trigger] s[j]).0 != s[j0].0);
                lemma_lookup_at(s, j0);
                assert(forall|j: int| 0 <= j < j0 ==> (#[trigger] b[j]).0 != b[j0].0);
                lemma_lookup_at(b, j0);
            } else {
                assert(forall|j: int| 0 <= j < s.len() ==> (#[trigger] s[j]).0 != u);
                lemma_lookup_none(s, u);
                assert(forall|j: int| 0 <= j < b.len() ==> (#[trigger] b[j]).0 != u);
                lemma_lookup_none(b, u);
            }
        }
    }
}

impl TokenMap {
    /// The empty map.
    pub fn new() -> (r: TokenMap)
        ensures
            r@ == Seq::<(Seq<char>, u64)>::empty(),
            entries_wf(r@),
    {
        let r = TokenMap { entries: Vec::new() };
        proof {
            assert(r@ =~= Seq::<(Seq<char>, u64)>::empty());
        }
        r
    }

    /// First index holding the given token, if any.
    fn find(&self, t: &str) -> (r: Option<usize>)
        ensures
            r matches Some(i) ==> i < self@.len() && self@[i as int].0 == t@ && forall|j: int|
                0 <= j < i ==> (#[trigger] self@[j]).0 != t@,
            r is None ==> forall|j: int| 0 <= j < self@.len() ==> (#[trigger] self@[j]).0 != t@,
    {
        let n = self.entries.len();
        let mut i: usize = 0;
        while i < n
            invariant
                i <= n,
                n == self@.len(),
                forall|j: int| 0 <= j < i ==> (#[trigger] self@[j]).0 != t@,
            decreases n - i,
        {
            if str_eq(self.entries[i].token.as_str(), t) {
                return Some(i);
            }
            i += 1;
        }
        None
    }

    /// The count stored for a token.
    pub fn get(&self, t: &str) -> (r: Option<u64>)
        ensures
            r == lookup(self@, t@),
    {
        match self.find(t) {
            Some(i) => {
                proof {
                    lemma_lookup_at(self@, i as int);
                }
                Some(self.entries[i].count)
            },
            None => {
                proof {
                    lemma_lookup_none(self@, t@);
                }
                None
            },
        }
    }

    /// Counts one more occurrence of the token.
    pub fn increment(&mut self, t: &str)
        requires
            entries_wf(old(self)@),
            lookup(old(self)@, t@) matches Some(c) ==> c < u64::MAX,
        ensures
            final(self)@ == bump(old(self)@, t@),
            entries_wf(final(self)@),
    {
        proof {
            lemma_bump_lookup(old(self)@, t@);
        }
        match self.find(t) {
            Some(i) => {
                proof {
                    lemma_lookup_at(self@, i as int);
                }
                let e = self.entries.remove(i);
                let c = e.count;
                self.entries.insert(i, TokenCount { token: e.token, count: c + 1 });
                proof {
                    assert(self@ =~= bump(old(self)@, t@));
                }
            },
            None => {
                self.entries.push(TokenCount { token: t.to_owned(), count: 1 });
                proof {
                    assert(self@ =~= bump(old(self)@, t@));
                }
            },
        }
    }

    /// Number of entries.
    pub fn len(&self) -> (r: usize)
        ensures
            r == self@.len(),
    {
        self.entries.len()
    }
}

/// Some entry holds the given key.
pub open spec fn keys_contain(s: Seq<(Seq<char>, u64)>, t: Seq<char>) -> bool {
    exists|i: int| 0 <= i < s.len() && (#[trigger] s[i]).0 == t
}

/// `lookup` succeeds exactly on held keys.
pub proof fn lemma_lookup_some_iff(s: Seq<(Seq<char>, u64)>, t: Seq<char>)
    ensures
        lookup(s, t) is Some <==> keys_contain(s, t),
    decreases s.len(),
{
    if s.len() > 0 {
        lemma_lookup_some_iff(s.drop_first(), t);
        if s[0].0 == t {
        } else if keys_contain(s.drop_first(), t) {
            let i = choose|i: int|
                0 <= i < s.drop_first().len() && (#[trigger] s.drop_first()[i]).0 == t;
            assert(s[i + 1].0 == t);
        } else if keys_contain(s, t) {
            let i = choose|i: int| 0 <= i < s.len() && (#[trigger] s[i]).0 == t;
            assert(s.drop_first()[i - 1].0 == t);
        }
    }
}

/// Occurrences of a token in a token sequence.
pub open spec fn occ_count(tokens: Seq<Seq<char>>, t: Seq<char>) -> nat
    decreases tokens.len(),
{
    if tokens.len() == 0 {
        0
    } else {
        occ_count(tokens.drop_last(), t) + if tokens.last() == t {
            1nat
        } else {
            0nat
        }
    }
}

/// An occurrence count never exceeds the sequence length.
pub proof fn lemma_occ_le_len(tokens: Seq<Seq<char>>, t: Seq<char>)
    ensures
        occ_count(tokens, t) <= tokens.len(),
    decreases tokens.len(),
{
    if tokens.len() > 0 {
        lemma_occ_le_len(tokens.drop_last(), t);
    }
}

/// The term-frequency map of a token sequence.
pub open spec fn counts_seq(tokens: Seq<Seq<char>>) -> Seq<(Seq<char>, u64)>
    decreases tokens.len(),
{
    if tokens.len() == 0 {
        Seq::empty()
    } else {
        bump(counts_seq(tokens.drop_last()), tokens.last())
    }
}

/// The term-frequency map stores exactly the occurrence count of every token
/// that occurs, and nothing else.
pub proof fn lemma_counts_seq(tokens: Seq<Seq<char>>)
    requires
        tokens.len() <= u64::MAX,
    ensures
        entries_wf(counts_seq(tokens)),
        forall|t: Seq<char>| #[trigger]
            lookup(counts_seq(tokens), t) == if occ_count(tokens, t) == 0 {
                None
            } else {
                Some(occ_count(tokens, t) as u64)
            },
    decreases tokens.len(),
{
    if tokens.len() > 0 {
        let pre = tokens.drop_last();
        let t0 = tokens.last();
        lemma_counts_seq(pre);
        lemma_bump_lookup(counts_seq(pre), t0);
        assert forall|t: Seq<char>| #[trigger]
            lookup(counts_seq(tokens), t) == if occ_count(tokens, t) == 0 {
                None
            } else {
                Some(occ_count(tokens, t) as u64)
            } by {
            lemma_occ_le_len(pre, t);
            if t == t0 {
                assert(lookup(counts_seq(pre), t) == if occ_count(pre, t) == 0 {
                    None
                } else {
                    Some(occ_count(pre, t) as u64)
                });
            } else {
                assert(lookup(counts_seq(tokens), t) == lookup(counts_seq(pre), t));
                assert(occ_count(tokens, t) == occ_count(pre, t));
            }
        }
    }
}

/// Builds the term-frequency map of a token list.
pub fn count_tokens(tokens: &Vec<String>) -> (r: TokenMap)
    ensures
        r@ == counts_seq(tokens.deep_view()),
        entries_wf(r@),
{
    let mut r = TokenMap::new();
    let mut i: usize = 0;
    let n = tokens.len();
    proof {
        assert(tokens.deep_view().take(0) =~= Seq::<Seq<char>>::empty());
    }
    while i < n
        invariant
            i <= n,
            n == tokens@.len(),
            tokens.deep_view().len() == n,
            r@ == counts_seq(tokens.deep_view().take(i as int)),
            entries_wf(r@),
        decreases n - i,
    {
        let ghost pre = tokens.deep_view().take(i as int);
        proof {
            lemma_counts_seq(pre);
            lemma_occ_le_len(pre, tokens.deep_view()[i as int]);
            assert(tokens.deep_view()[i as int] == tokens@[i as int]@);
            assert(tokens.deep_view().take(i + 1).drop_last() =~= pre);
            assert(tokens.deep_view().take(i + 1).last() == tokens.deep_view()[i as int]);
        }
        r.increment(tokens[i].as_str());
        i += 1;
    }
    proof {
        assert(tokens.deep_view().take(n as int) =~= tokens.deep_view());
    }
    r
}

} // verus!
