//! Laws of training and generation, stated over the mathematical model
//! and proved for every input.

use vstd::prelude::*;

use crate::markov::{GENERATION_CAP, gen_walk};
use crate::model::{
    add_window, count_of, lemma_train_sents_from_count, occ_sents_from, train_text, train_toks,
    train_toks_from, window_prefix,
};
use crate::token::TokenV;
use crate::tokenize::spec_tokenize;

verus! {

/// Law: training on a text adds exactly the number of matching windows
/// to each (prefix, successor) count — `k` occurrences of an identical
/// pair yield a count of exactly `k` plus any prior count.
pub proof fn lemma_training_counts(
    m: Map<Seq<TokenV>, Map<TokenV, nat>>,
    text: Seq<char>,
    plen: nat,
    p: Seq<TokenV>,
    s: TokenV,
)
    ensures
        count_of(train_text(m, text, plen), p, s) == count_of(m, p, s) + occ_sents_from(
            spec_tokenize(text),
            plen,
            p,
            s,
            0,
        ),
{
    lemma_train_sents_from_count(m, spec_tokenize(text), plen, 0, p, s);
}

/// Law: training the same text twice, starting from an empty model,
/// leaves every count at exactly twice its single-pass value. All counts
/// scale uniformly, so the ratios of successor probabilities for any
/// prefix equal those of a single training pass.
pub proof fn lemma_double_training(text: Seq<char>, plen: nat, p: Seq<TokenV>, s: TokenV)
    ensures
        count_of(
            train_text(
                train_text(Map::<Seq<TokenV>, Map<TokenV, nat>>::empty(), text, plen),
                text,
                plen,
            ),
            p,
            s,
        ) == 2 * count_of(
            train_text(Map::<Seq<TokenV>, Map<TokenV, nat>>::empty(), text, plen),
            p,
            s,
        ),
{
    let empty = Map::<Seq<TokenV>, Map<TokenV, nat>>::empty();
    lemma_training_counts(empty, text, plen, p, s);
    lemma_training_counts(train_text(empty, text, plen), text, plen, p, s);
}

/// The shape the tokenizer gives one sentence: `Start`, words, `End`.
pub open spec fn is_sentence_shape(toks: Seq<TokenV>) -> bool {
    &&& toks.len() >= 2
    &&& toks[0] == TokenV::Start
    &&& toks.last() == TokenV::End
    &&& forall|i: int| 0 < i < toks.len() - 1 ==> (#[trigger] toks[i]) is Word
}

/// No two windows of the sequence share a prefix.
pub open spec fn windows_distinct(toks: Seq<TokenV>, plen: nat) -> bool {
    forall|i: int, j: int|
        0 <= i < j && j + plen < toks.len() ==> window_prefix(toks, plen, i) != window_prefix(
            toks,
            plen,
            j,
        )
}

/// Training touches exactly the window prefixes: a key is in the trained
/// model iff it was there before or is the prefix of some window.
proof fn lemma_train_dom(
    m0: Map<Seq<TokenV>, Map<TokenV, nat>>,
    toks: Seq<TokenV>,
    plen: nat,
    i: int,
    p: Seq<TokenV>,
)
    requires
        0 <= i,
    ensures
        train_toks_from(m0, toks, plen, i).contains_key(p) <==> (m0.contains_key(p) || exists|
            k: int,
        |
            i <= k && k + plen < toks.len() && window_prefix(toks, plen, k) == p),
    decreases toks.len() - i,
{
    if i + plen < toks.len() {
        let m1 = add_window(m0, window_prefix(toks, plen, i), toks[i + plen]);
        lemma_train_dom(m1, toks, plen, i + 1, p);
        if train_toks_from(m0, toks, plen, i).contains_key(p) {
            if !m0.contains_key(p) {
                if m1.contains_key(p) {
                    assert(window_prefix(toks, plen, i) == p);
                    assert(i <= i && i + plen < toks.len());
                } else {
                    let k = choose|k: int|
                        i + 1 <= k && k + plen < toks.len() && window_prefix(toks, plen, k) == p;
                    assert(i <= k && k + plen < toks.len() && window_prefix(toks, plen, k) == p);
                }
            }
        }
        if m0.contains_key(p) {
            assert(m1.contains_key(p));
        }
        if exists|k: int| i <= k && k + plen < toks.len() && window_prefix(toks, plen, k) == p {
            let k = choose|k: int|
                i <= k && k + plen < toks.len() && window_prefix(toks, plen, k) == p;
            if k == i {
                assert(m1.contains_key(p));
            } else {
                assert(i + 1 <= k && k + plen < toks.len() && window_prefix(toks, plen, k) == p);
            }
        }
    }
}

/// Training leaves keys that are no window prefix untouched.
proof fn lemma_train_preserve(
    m0: Map<Seq<TokenV>, Map<TokenV, nat>>,
    toks: Seq<TokenV>,
    plen: nat,
    i: int,
    p: Seq<TokenV>,
)
    requires
        0 <= i,
        forall|k: int| i <= k && k + plen < toks.len() ==> window_prefix(toks, plen, k) != p,
    ensures
        train_toks_from(m0, toks, plen, i).contains_key(p) == m0.contains_key(p),
        m0.contains_key(p) ==> train_toks_from(m0, toks, plen, i)[p] == m0[p],
    decreases toks.len() - i,
{
    if i + plen < toks.len() {
        let m1 = add_window(m0, window_prefix(toks, plen, i), toks[i + plen]);
        lemma_train_preserve(m1, toks, plen, i + 1, p);
    }
}

/// With pairwise distinct windows, the trained value at a window's
/// prefix is the singleton distribution of its successor at count one.
proof fn lemma_train_window_value(
    m0: Map<Seq<TokenV>, Map<TokenV, nat>>,
    toks: Seq<TokenV>,
    plen: nat,
    i: int,
    k: int,
)
    requires
        0 <= i <= k,
        k + plen < toks.len(),
        !m0.contains_key(window_prefix(toks, plen, k)),
        forall|j: int|
            i <= j && j + plen < toks.len() && j != k ==> window_prefix(toks, plen, j)
                != window_prefix(toks, plen, k),
    ensures
        train_toks_from(m0, toks, plen, i).contains_key(window_prefix(toks, plen, k)),
        train_toks_from(m0, toks, plen, i)[window_prefix(toks, plen, k)] == Map::<
            TokenV,
            nat,
        >::empty().insert(toks[k + plen], 1nat),
    decreases toks.len() - i,
{
    let p = window_prefix(toks, plen, k);
    if i == k {
        let m1 = add_window(m0, p, toks[k + plen]);
        assert(m1[p] == Map::<TokenV, nat>::empty().insert(toks[k + plen], 1nat));
        lemma_train_preserve(m1, toks, plen, i + 1, p);
    } else {
        let m1 = add_window(m0, window_prefix(toks, plen, i), toks[i + plen]);
        assert(window_prefix(toks, plen, i) != p);
        assert(!m1.contains_key(p));
        lemma_train_window_value(m1, toks, plen, i + 1, k);
    }
}

/// A generation walk over a single-sentence model follows the sentence
/// token for token, as far as both reach.
proof fn lemma_walk_prefix_matches(toks: Seq<TokenV>, plen: nat, walk: Seq<TokenV>, n: int)
    requires
        1 <= plen,
        plen + 1 <= toks.len(),
        is_sentence_shape(toks),
        windows_distinct(toks, plen),
        gen_walk(train_toks(Map::<Seq<TokenV>, Map<TokenV, nat>>::empty(), toks, plen), plen, walk),
        plen <= n <= walk.len(),
        n <= toks.len(),
    ensures
        walk.take(n) == toks.take(n),
    decreases n,
{
    let empty = Map::<Seq<TokenV>, Map<TokenV, nat>>::empty();
    let m = train_toks(empty, toks, plen);
    if n == plen {
        lemma_train_dom(empty, toks, plen, 0, walk.take(plen as int));
        let k = choose|k: int|
            0 <= k && k + plen < toks.len() && window_prefix(toks, plen, k) == walk.take(
                plen as int,
            );
        assert(window_prefix(toks, plen, k)[0] == toks[k]);
        assert(walk.take(plen as int)[0] == walk[0]);
        assert(toks[k] == TokenV::Start);
        if k > 0 {
            assert(toks[k] is Word);
            assert(false);
        }
        assert(walk.take(plen as int) == window_prefix(toks, plen, 0));
        assert(window_prefix(toks, plen, 0) =~= toks.take(plen as int));
    } else {
        lemma_walk_prefix_matches(toks, plen, walk, n - 1);
        let i = n - 1;
        assert(m.contains_key(walk.subrange(i - plen, i)) && m[walk.subrange(
            i - plen,
            i,
        )].contains_key(walk[i]));
        assert forall|x: int| i - plen <= x < i implies walk[x] == toks[x] by {
            assert(walk.take(n - 1)[x] == toks.take(n - 1)[x]);
        }
        assert(walk.subrange(i - plen, i) =~= window_prefix(toks, plen, i - plen));
        let k = i - plen;
        assert forall|j: int|
            0 <= j && j + plen < toks.len() && j != k implies window_prefix(toks, plen, j)
            != window_prefix(toks, plen, k) by {
            if j < k {
                assert(window_prefix(toks, plen, j) != window_prefix(toks, plen, k));
            }
        }
        lemma_train_window_value(empty, toks, plen, 0, k);
        assert(m[window_prefix(toks, plen, k)] == Map::<TokenV, nat>::empty().insert(
            toks[k + plen],
            1nat,
        ));
        assert(walk[i] == toks[i]);
        assert forall|x: int| 0 <= x < n implies walk.take(n)[x] == toks.take(n)[x] by {
            if x < n - 1 {
                assert(walk.take(n - 1)[x] == toks.take(n - 1)[x]);
            }
        }
        assert(walk.take(n) =~= toks.take(n));
    }
}

/// Law: a model trained on exactly one sentence, none of whose windows
/// repeats a prefix, admits exactly one generation walk: the sentence
/// itself. Generation therefore always reproduces that sentence.
pub proof fn lemma_single_sentence_walk(toks: Seq<TokenV>, plen: nat, walk: Seq<TokenV>)
    requires
        1 <= plen,
        plen + 1 <= toks.len(),
        toks.len() <= GENERATION_CAP,
        is_sentence_shape(toks),
        windows_distinct(toks, plen),
        gen_walk(train_toks(Map::<Seq<TokenV>, Map<TokenV, nat>>::empty(), toks, plen), plen, walk),
    ensures
        walk == toks,
{
    let empty = Map::<Seq<TokenV>, Map<TokenV, nat>>::empty();
    let m = train_toks(empty, toks, plen);
    let tl = toks.len() as int;
    let wl = walk.len() as int;
    if wl < tl {
        lemma_walk_prefix_matches(toks, plen, walk, wl);
        assert(walk =~= walk.take(wl));
        if wl > plen && walk.last() == TokenV::End {
            assert(walk[wl - 1] == toks.take(wl)[wl - 1]);
            assert(toks[wl - 1] is Word);
            assert(false);
        }
        assert(walk.subrange(wl - plen, wl) =~= window_prefix(toks, plen, wl - plen));
        lemma_train_dom(empty, toks, plen, 0, window_prefix(toks, plen, wl - plen));
        assert(m.contains_key(walk.subrange(wl - plen, wl)));
        assert(false);
    }
    lemma_walk_prefix_matches(toks, plen, walk, tl);
    if wl > tl {
        assert(walk[tl - 1] == walk.take(tl)[tl - 1]);
        assert(walk[tl - 1] == TokenV::End);
        assert(plen <= tl - 1 < wl - 1);
        assert(false);
    }
    assert(walk =~= walk.take(tl));
    assert(walk =~= toks);
}

} // verus!
