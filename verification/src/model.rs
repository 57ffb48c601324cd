//! The frequency table: a map from prefixes (windows of `prefix_len`
//! tokens) to distributions, each distribution a map from successor token
//! to a positive occurrence count. The executable representation is an
//! association list; the mathematical value is the two-level `Map`.

use vstd::prelude::*;
use vstd::map::*;

use crate::token::{Token, TokenV, token_eq, tokens_eq};

verus! {

/// One row of the table: a prefix and its successor distribution.
pub struct Entry {
    pub prefix: Vec<Token>,
    pub counts: Vec<(Token, u64)>,
}

/// The mathematical value of one distribution.
pub open spec fn dist_view(cs: Seq<(Token, u64)>) -> Map<TokenV, nat>
    decreases cs.len(),
{
    if cs.len() == 0 {
        Map::empty()
    } else {
        dist_view(cs.drop_last()).insert(cs.last().0@, cs.last().1 as nat)
    }
}

/// The mathematical value of the whole table.
pub open spec fn table_view(t: Seq<Entry>) -> Map<Seq<TokenV>, Map<TokenV, nat>>
    decreases t.len(),
{
    if t.len() == 0 {
        Map::empty()
    } else {
        table_view(t.drop_last()).insert(
            t.last().prefix.deep_view(),
            dist_view(t.last().counts@),
        )
    }
}

/// No two pairs of a distribution name the same successor.
pub open spec fn dist_keys_unique(cs: Seq<(Token, u64)>) -> bool {
    forall|i: int, j: int| 0 <= i < j < cs.len() ==> cs[i].0@ != cs[j].0@
}

/// No two rows of the table name the same prefix.
pub open spec fn prefixes_unique(t: Seq<Entry>) -> bool {
    forall|i: int, j: int|
        0 <= i < j < t.len() ==> t[i].prefix.deep_view() != t[j].prefix.deep_view()
}

/// The sum of one distribution's counts.
pub open spec fn dist_total(cs: Seq<(Token, u64)>) -> int
    decreases cs.len(),
{
    if cs.len() == 0 {
        0
    } else {
        dist_total(cs.drop_last()) + cs.last().1
    }
}

/// The sum of all counts in the table.
pub open spec fn table_total(t: Seq<Entry>) -> int
    decreases t.len(),
{
    if t.len() == 0 {
        0
    } else {
        table_total(t.drop_last()) + dist_total(t.last().counts@)
    }
}

/// A distribution's domain is the set of successors its pairs name.
pub proof fn lemma_dist_view_dom(cs: Seq<(Token, u64)>)
    ensures
        forall|k: TokenV|
            dist_view(cs).contains_key(k) <==> exists|i: int| 0 <= i < cs.len() && cs[i].0@ == k,
    decreases cs.len(),
{
    if cs.len() > 0 {
        lemma_dist_view_dom(cs.drop_last());
        assert forall|k: TokenV| dist_view(cs).contains_key(k) implies exists|i: int|
            0 <= i < cs.len() && cs[i].0@ == k by {
            if k == cs.last().0@ {
                assert(cs[cs.len() - 1].0@ == k);
            } else {
                assert(dist_view(cs) == dist_view(cs.drop_last()).insert(
                    cs.last().0@,
                    cs.last().1 as nat,
                ));
                assert(dist_view(cs.drop_last()).contains_key(k));
                let i = choose|i: int| 0 <= i < cs.drop_last().len() && cs.drop_last()[i].0@ == k;
                assert(cs[i].0@ == k);
            }
        }
        assert forall|k: TokenV|
            exists|i: int| 0 <= i < cs.len() && cs[i].0@ == k implies dist_view(
            cs,
        ).contains_key(k) by {
            let i = choose|i: int| 0 <= i < cs.len() && cs[i].0@ == k;
            if i < cs.len() - 1 {
                assert(cs.drop_last()[i].0@ == k);
                assert(dist_view(cs.drop_last()).contains_key(k));
            }
        }
    }
}

/// With unique successors, the pair at `i` gives the value at its key.
pub proof fn lemma_dist_view_at(cs: Seq<(Token, u64)>, i: int)
    requires
        dist_keys_unique(cs),
        0 <= i < cs.len(),
    ensures
        dist_view(cs).contains_key(cs[i].0@),
        dist_view(cs)[cs[i].0@] == cs[i].1 as nat,
    decreases cs.len(),
{
    if i < cs.len() - 1 {
        assert(dist_keys_unique(cs.drop_last()));
        lemma_dist_view_at(cs.drop_last(), i);
        assert(cs[i].0@ != cs.last().0@);
    }
}

/// Updating the pair at `i` with the same successor key updates the view
/// at that key alone.
pub proof fn lemma_dist_view_update(cs: Seq<(Token, u64)>, i: int, p: (Token, u64))
    requires
        dist_keys_unique(cs),
        0 <= i < cs.len(),
        p.0@ == cs[i].0@,
    ensures
        dist_view(cs.update(i, p)) == dist_view(cs).insert(p.0@, p.1 as nat),
        dist_keys_unique(cs.update(i, p)),
    decreases cs.len(),
{
    let cs2 = cs.update(i, p);
    if i == cs.len() - 1 {
        assert(cs2.drop_last() =~= cs.drop_last());
        assert(dist_view(cs2) == dist_view(cs.drop_last()).insert(p.0@, p.1 as nat));
        assert(dist_view(cs).insert(p.0@, p.1 as nat) == dist_view(cs.drop_last()).insert(
            cs.last().0@,
            cs.last().1 as nat,
        ).insert(p.0@, p.1 as nat));
        assert(dist_view(cs.drop_last()).insert(cs.last().0@, cs.last().1 as nat).insert(
            p.0@,
            p.1 as nat,
        ) =~= dist_view(cs.drop_last()).insert(p.0@, p.1 as nat));
    } else {
        assert(dist_keys_unique(cs.drop_last()));
        lemma_dist_view_update(cs.drop_last(), i, p);
        assert(cs2.drop_last() =~= cs.drop_last().update(i, p));
        assert(cs2.last() == cs.last());
        assert(dist_view(cs2) == dist_view(cs.drop_last()).insert(p.0@, p.1 as nat).insert(
            cs.last().0@,
            cs.last().1 as nat,
        ));
        assert(p.0@ != cs.last().0@);
        assert(dist_view(cs.drop_last()).insert(p.0@, p.1 as nat).insert(
            cs.last().0@,
            cs.last().1 as nat,
        ) =~= dist_view(cs).insert(p.0@, p.1 as nat));
    }
}

/// Appending a pair with a fresh successor inserts it into the view.
pub proof fn lemma_dist_view_push(cs: Seq<(Token, u64)>, p: (Token, u64))
    ensures
        dist_view(cs.push(p)) == dist_view(cs).insert(p.0@, p.1 as nat),
{
    assert(cs.push(p).drop_last() =~= cs);
    assert(cs.push(p).last() == p);
}

/// The table's domain is the set of prefixes its rows name.
pub proof fn lemma_table_view_dom(t: Seq<Entry>)
    ensures
        forall|p: Seq<TokenV>|
            table_view(t).contains_key(p) <==> exists|i: int|
                0 <= i < t.len() && t[i].prefix.deep_view() == p,
    decreases t.len(),
{
    if t.len() > 0 {
        lemma_table_view_dom(t.drop_last());
        assert forall|p: Seq<TokenV>| table_view(t).contains_key(p) implies exists|i: int|
            0 <= i < t.len() && t[i].prefix.deep_view() == p by {
            if p == t.last().prefix.deep_view() {
                assert(t[t.len() - 1].prefix.deep_view() == p);
            } else {
                assert(table_view(t) == table_view(t.drop_last()).insert(
                    t.last().prefix.deep_view(),
                    dist_view(t.last().counts@),
                ));
                assert(table_view(t.drop_last()).contains_key(p));
                let i = choose|i: int|
                    0 <= i < t.drop_last().len() && t.drop_last()[i].prefix.deep_view() == p;
                assert(t[i].prefix.deep_view() == p);
            }
        }
        assert forall|p: Seq<TokenV>|
            exists|i: int| 0 <= i < t.len() && t[i].prefix.deep_view() == p implies table_view(
            t,
        ).contains_key(p) by {
            let i = choose|i: int| 0 <= i < t.len() && t[i].prefix.deep_view() == p;
            if i < t.len() - 1 {
                assert(t.drop_last()[i].prefix.deep_view() == p);
                assert(table_view(t.drop_last()).contains_key(p));
            }
        }
    }
}

/// With unique prefixes, the row at `i` gives the value at its prefix.
pub proof fn lemma_table_view_at(t: Seq<Entry>, i: int)
    requires
        prefixes_unique(t),
        0 <= i < t.len(),
    ensures
        table_view(t).contains_key(t[i].prefix.deep_view()),
        table_view(t)[t[i].prefix.deep_view()] == dist_view(t[i].counts@),
    decreases t.len(),
{
    if i < t.len() - 1 {
        assert(prefixes_unique(t.drop_last()));
        lemma_table_view_at(t.drop_last(), i);
        assert(t[i].prefix.deep_view() != t.last().prefix.deep_view());
    }
}

/// Replacing the row at `i` by one with the same prefix updates the view
/// at that prefix alone.
pub proof fn lemma_table_view_update(t: Seq<Entry>, i: int, e: Entry)
    requires
        prefixes_unique(t),
        0 <= i < t.len(),
        e.prefix.deep_view() == t[i].prefix.deep_view(),
    ensures
        table_view(t.update(i, e)) == table_view(t).insert(
            e.prefix.deep_view(),
            dist_view(e.counts@),
        ),
        prefixes_unique(t.update(i, e)),
    decreases t.len(),
{
    let t2 = t.update(i, e);
    if i == t.len() - 1 {
        assert(t2.drop_last() =~= t.drop_last());
        assert(table_view(t).insert(e.prefix.deep_view(), dist_view(e.counts@)) == table_view(
            t.drop_last(),
        ).insert(t.last().prefix.deep_view(), dist_view(t.last().counts@)).insert(
            e.prefix.deep_view(),
            dist_view(e.counts@),
        ));
        assert(table_view(t.drop_last()).insert(
            t.last().prefix.deep_view(),
            dist_view(t.last().counts@),
        ).insert(e.prefix.deep_view(), dist_view(e.counts@)) =~= table_view(t.drop_last()).insert(
            e.prefix.deep_view(),
            dist_view(e.counts@),
        ));
    } else {
        assert(prefixes_unique(t.drop_last()));
        lemma_table_view_update(t.drop_last(), i, e);
        assert(t2.drop_last() =~= t.drop_last().update(i, e));
        assert(t2.last() == t.last());
        assert(e.prefix.deep_view() != t.last().prefix.deep_view());
        assert(table_view(t.drop_last()).insert(e.prefix.deep_view(), dist_view(e.counts@)).insert(
            t.last().prefix.deep_view(),
            dist_view(t.last().counts@),
        ) =~= table_view(t).insert(e.prefix.deep_view(), dist_view(e.counts@)));
    }
}

/// Appending a row with a fresh prefix inserts it into the view.
pub proof fn lemma_table_view_push(t: Seq<Entry>, e: Entry)
    ensures
        table_view(t.push(e)) == table_view(t).insert(e.prefix.deep_view(), dist_view(e.counts@)),
{
    assert(t.push(e).drop_last() =~= t);
    assert(t.push(e).last() == e);
}

/// Each count is bounded by its distribution's total.
pub proof fn lemma_count_le_dist_total(cs: Seq<(Token, u64)>, j: int)
    requires
        0 <= j < cs.len(),
        forall|k: int| 0 <= k < cs.len() ==> (#[trigger] cs[k].1) >= 1,
    ensures
        cs[j].1 <= dist_total(cs),
        dist_total(cs) >= cs.len(),
    decreases cs.len(),
{
    lemma_dist_total_nonneg(cs);
    if j < cs.len() - 1 {
        lemma_count_le_dist_total(cs.drop_last(), j);
    } else {
        lemma_dist_total_at_least_len(cs.drop_last());
    }
    lemma_dist_total_at_least_len(cs);
}

/// A distribution of positive counts has a total at least its length.
pub proof fn lemma_dist_total_at_least_len(cs: Seq<(Token, u64)>)
    requires
        forall|k: int| 0 <= k < cs.len() ==> (#[trigger] cs[k].1) >= 1,
    ensures
        dist_total(cs) >= cs.len(),
    decreases cs.len(),
{
    if cs.len() > 0 {
        lemma_dist_total_at_least_len(cs.drop_last());
    }
}

pub proof fn lemma_dist_total_nonneg(cs: Seq<(Token, u64)>)
    ensures
        dist_total(cs) >= 0,
    decreases cs.len(),
{
    if cs.len() > 0 {
        lemma_dist_total_nonneg(cs.drop_last());
    }
}

/// Each row's distribution total is bounded by the table's total.
pub proof fn lemma_dist_le_table_total(t: Seq<Entry>, i: int)
    requires
        0 <= i < t.len(),
        forall|a: int, b: int|
            0 <= a < t.len() && 0 <= b < (#[trigger] t[a]).counts@.len() ==> (#[trigger] t[a].counts@[b]).1
                >= 1,
    ensures
        dist_total(t[i].counts@) <= table_total(t),
    decreases t.len(),
{
    if i == t.len() - 1 {
        lemma_table_total_nonneg(t.drop_last());
    } else {
        assert forall|a: int, b: int|
            0 <= a < t.drop_last().len() && 0 <= b < (#[trigger] t.drop_last()[a]).counts@.len()
            implies (#[trigger] t.drop_last()[a].counts@[b]).1 >= 1 by {
            assert(t[a].counts@[b].1 >= 1);
        }
        lemma_dist_le_table_total(t.drop_last(), i);
        lemma_dist_total_nonneg(t.last().counts@);
    }
}

pub proof fn lemma_table_total_nonneg(t: Seq<Entry>)
    ensures
        table_total(t) >= 0,
    decreases t.len(),
{
    if t.len() > 0 {
        lemma_table_total_nonneg(t.drop_last());
        lemma_dist_total_nonneg(t.last().counts@);
    }
}

/// Updating one pair moves the distribution's total by the difference.
pub proof fn lemma_dist_total_update(cs: Seq<(Token, u64)>, j: int, p: (Token, u64))
    requires
        0 <= j < cs.len(),
    ensures
        dist_total(cs.update(j, p)) == dist_total(cs) - cs[j].1 + p.1,
    decreases cs.len(),
{
    let cs2 = cs.update(j, p);
    if j == cs.len() - 1 {
        assert(cs2.drop_last() =~= cs.drop_last());
    } else {
        assert(cs2.drop_last() =~= cs.drop_last().update(j, p));
        assert(cs2.last() == cs.last());
        lemma_dist_total_update(cs.drop_last(), j, p);
    }
}

pub proof fn lemma_dist_total_push(cs: Seq<(Token, u64)>, p: (Token, u64))
    ensures
        dist_total(cs.push(p)) == dist_total(cs) + p.1,
{
    assert(cs.push(p).drop_last() =~= cs);
    assert(cs.push(p).last() == p);
}

/// A partial sum of a distribution is bounded by the whole sum.
pub proof fn lemma_dist_total_take(cs: Seq<(Token, u64)>, j: int)
    requires
        0 <= j <= cs.len(),
    ensures
        dist_total(cs.take(j)) <= dist_total(cs),
    decreases cs.len() - j,
{
    if j == cs.len() {
        assert(cs.take(j) =~= cs);
    } else {
        assert(cs.take(j + 1).drop_last() =~= cs.take(j));
        assert(cs.take(j + 1).last() == cs[j]);
        lemma_dist_total_take(cs, j + 1);
    }
}

/// Replacing one row moves the table's total by the difference of the
/// distribution totals.
pub proof fn lemma_table_total_update(t: Seq<Entry>, i: int, e: Entry)
    requires
        0 <= i < t.len(),
    ensures
        table_total(t.update(i, e)) == table_total(t) - dist_total(t[i].counts@) + dist_total(
            e.counts@,
        ),
    decreases t.len(),
{
    let t2 = t.update(i, e);
    if i == t.len() - 1 {
        assert(t2.drop_last() =~= t.drop_last());
    } else {
        assert(t2.drop_last() =~= t.drop_last().update(i, e));
        assert(t2.last() == t.last());
        lemma_table_total_update(t.drop_last(), i, e);
    }
}

pub proof fn lemma_table_total_push(t: Seq<Entry>, e: Entry)
    ensures
        table_total(t.push(e)) == table_total(t) + dist_total(e.counts@),
{
    assert(t.push(e).drop_last() =~= t);
    assert(t.push(e).last() == e);
}

/// With unique prefixes the table's rows and the model's keys correspond
/// one to one.
pub proof fn lemma_table_view_dom_len(t: Seq<Entry>)
    requires
        prefixes_unique(t),
    ensures
        table_view(t).dom().finite(),
        table_view(t).dom().len() == t.len(),
    decreases t.len(),
{
    if t.len() > 0 {
        assert(prefixes_unique(t.drop_last()));
        lemma_table_view_dom_len(t.drop_last());
        lemma_table_view_dom(t.drop_last());
        assert(forall|i: int|
            0 <= i < t.drop_last().len() ==> t.drop_last()[i].prefix.deep_view() != t.last().prefix.deep_view());
        assert(!table_view(t.drop_last()).contains_key(t.last().prefix.deep_view()));
    }
}

/// The model after observing one window: the count of (prefix `p`,
/// successor `s`) rises by exactly one; entries are created at one on
/// first observation; nothing else changes.
pub open spec fn add_window(
    m: Map<Seq<TokenV>, Map<TokenV, nat>>,
    p: Seq<TokenV>,
    s: TokenV,
) -> Map<Seq<TokenV>, Map<TokenV, nat>> {
    let d = if m.contains_key(p) {
        m[p]
    } else {
        Map::empty()
    };
    let c: nat = if d.contains_key(s) {
        d[s]
    } else {
        0
    };
    m.insert(p, d.insert(s, c + 1))
}

/// The count the model holds for (prefix, successor), zero when absent.
pub open spec fn count_of(
    m: Map<Seq<TokenV>, Map<TokenV, nat>>,
    p: Seq<TokenV>,
    s: TokenV,
) -> nat {
    if m.contains_key(p) && m[p].contains_key(s) {
        m[p][s]
    } else {
        0
    }
}

/// The prefix of the window that starts at `i`.
pub open spec fn window_prefix(toks: Seq<TokenV>, plen: nat, i: int) -> Seq<TokenV> {
    toks.subrange(i, i + plen)
}

/// How many windows a token sequence of length `len` yields.
pub open spec fn window_count(len: int, plen: nat) -> int {
    if len > plen {
        len - plen
    } else {
        0
    }
}

/// The model after sliding the window over `toks[i..]`, one step at a
/// time: each window's prefix is the `plen` tokens before its successor.
pub open spec fn train_toks_from(
    m: Map<Seq<TokenV>, Map<TokenV, nat>>,
    toks: Seq<TokenV>,
    plen: nat,
    i: int,
) -> Map<Seq<TokenV>, Map<TokenV, nat>>
    decreases toks.len() - i,
{
    if i < 0 || i + plen >= toks.len() {
        m
    } else {
        train_toks_from(
            add_window(m, window_prefix(toks, plen, i), toks[i + plen]),
            toks,
            plen,
            i + 1,
        )
    }
}

/// The model after training on one sentence's token sequence.
pub open spec fn train_toks(
    m: Map<Seq<TokenV>, Map<TokenV, nat>>,
    toks: Seq<TokenV>,
    plen: nat,
) -> Map<Seq<TokenV>, Map<TokenV, nat>> {
    train_toks_from(m, toks, plen, 0)
}

/// The model after training on the sentences `ss[k..]`, in order.
pub open spec fn train_sents_from(
    m: Map<Seq<TokenV>, Map<TokenV, nat>>,
    ss: Seq<Seq<TokenV>>,
    plen: nat,
    k: int,
) -> Map<Seq<TokenV>, Map<TokenV, nat>>
    decreases ss.len() - k,
{
    if k < 0 || k >= ss.len() {
        m
    } else {
        train_sents_from(train_toks(m, ss[k], plen), ss, plen, k + 1)
    }
}

/// The model after training on a raw text: tokenize it, then fold every
/// sentence's windows into the model.
pub open spec fn train_text(
    m: Map<Seq<TokenV>, Map<TokenV, nat>>,
    text: Seq<char>,
    plen: nat,
) -> Map<Seq<TokenV>, Map<TokenV, nat>> {
    train_sents_from(m, crate::tokenize::spec_tokenize(text), plen, 0)
}

/// How many windows of `toks[i..]` carry exactly (prefix `p`, successor `s`).
pub open spec fn occ_from(toks: Seq<TokenV>, plen: nat, p: Seq<TokenV>, s: TokenV, i: int) -> nat
    decreases toks.len() - i,
{
    if i < 0 || i + plen >= toks.len() {
        0
    } else {
        (if window_prefix(toks, plen, i) == p && toks[i + plen] == s {
            1nat
        } else {
            0
        }) + occ_from(toks, plen, p, s, i + 1)
    }
}

/// How many windows of the sentences `ss[k..]` carry (prefix, successor).
pub open spec fn occ_sents_from(
    ss: Seq<Seq<TokenV>>,
    plen: nat,
    p: Seq<TokenV>,
    s: TokenV,
    k: int,
) -> nat
    decreases ss.len() - k,
{
    if k < 0 || k >= ss.len() {
        0
    } else {
        occ_from(ss[k], plen, p, s, 0) + occ_sents_from(ss, plen, p, s, k + 1)
    }
}

/// Observing one window raises its own count by one and no other.
pub proof fn lemma_add_window_count(
    m: Map<Seq<TokenV>, Map<TokenV, nat>>,
    p: Seq<TokenV>,
    s: TokenV,
    q: Seq<TokenV>,
    u: TokenV,
)
    ensures
        count_of(add_window(m, p, s), q, u) == count_of(m, q, u) + (if q == p && u == s {
            1int
        } else {
            0
        }),
{
}

/// Training on a token sequence adds exactly the number of matching
/// windows to each count.
pub proof fn lemma_train_toks_from_count(
    m: Map<Seq<TokenV>, Map<TokenV, nat>>,
    toks: Seq<TokenV>,
    plen: nat,
    i: int,
    p: Seq<TokenV>,
    s: TokenV,
)
    ensures
        count_of(train_toks_from(m, toks, plen, i), p, s) == count_of(m, p, s) + occ_from(
            toks,
            plen,
            p,
            s,
            i,
        ),
    decreases toks.len() - i,
{
    if !(i < 0 || i + plen >= toks.len()) {
        let m2 = add_window(m, window_prefix(toks, plen, i), toks[i + plen]);
        lemma_add_window_count(m, window_prefix(toks, plen, i), toks[i + plen], p, s);
        lemma_train_toks_from_count(m2, toks, plen, i + 1, p, s);
    }
}

/// Training on a sentence list adds exactly the number of matching
/// windows, over all sentences, to each count.
pub proof fn lemma_train_sents_from_count(
    m: Map<Seq<TokenV>, Map<TokenV, nat>>,
    ss: Seq<Seq<TokenV>>,
    plen: nat,
    k: int,
    p: Seq<TokenV>,
    s: TokenV,
)
    ensures
        count_of(train_sents_from(m, ss, plen, k), p, s) == count_of(m, p, s) + occ_sents_from(
            ss,
            plen,
            p,
            s,
            k,
        ),
    decreases ss.len() - k,
{
    if !(k < 0 || k >= ss.len()) {
        lemma_train_toks_from_count(m, ss[k], plen, 0, p, s);
        lemma_train_sents_from_count(train_toks(m, ss[k], plen), ss, plen, k + 1, p, s);
    }
}

/// Find the row that names `p`, if any.
pub fn find_prefix(table: &Vec<Entry>, p: &Vec<Token>) -> (r: Option<usize>)
    ensures
        match r {
            Some(i) => i < table@.len() && table@[i as int].prefix.deep_view() == p.deep_view(),
            None => forall|i: int|
                0 <= i < table@.len() ==> table@[i].prefix.deep_view() != p.deep_view(),
        },
{
    let mut i: usize = 0;
    while i < table.len()
        invariant
            i <= table@.len(),
            forall|j: int| 0 <= j < i ==> table@[j].prefix.deep_view() != p.deep_view(),
        decreases table@.len() - i,
    {
        if tokens_eq(&table[i].prefix, p) {
            return Some(i);
        }
        i = i + 1;
    }
    None
}

/// Find the pair that names successor `t`, if any.
pub fn find_succ(cs: &Vec<(Token, u64)>, t: &Token) -> (r: Option<usize>)
    ensures
        match r {
            Some(j) => j < cs@.len() && cs@[j as int].0@ == t@,
            None => forall|j: int| 0 <= j < cs@.len() ==> cs@[j].0@ != t@,
        },
{
    let mut j: usize = 0;
    while j < cs.len()
        invariant
            j <= cs@.len(),
            forall|k: int| 0 <= k < j ==> cs@[k].0@ != t@,
        decreases cs@.len() - j,
    {
        if token_eq(&cs[j].0, t) {
            return Some(j);
        }
        j = j + 1;
    }
    None
}

} // verus!
