//! The Markov engine: a frequency table owned by the engine, trained
//! additively from raw text, and read during generation. All access to
//! the model goes through the engine's operations.

use vstd::prelude::*;

use crate::errors::MarkovError;
use crate::model::{
    Entry, add_window, count_of, dist_keys_unique, dist_total, dist_view, find_prefix, find_succ,
    lemma_count_le_dist_total, lemma_dist_le_table_total, lemma_dist_total_at_least_len,
    lemma_dist_total_push, lemma_dist_total_take, lemma_dist_total_update, lemma_dist_view_at,
    lemma_dist_view_dom, lemma_dist_view_push, lemma_dist_view_update, lemma_table_total_push,
    lemma_table_total_update, lemma_table_view_at, lemma_table_view_dom, lemma_table_view_dom_len,
    lemma_table_view_push, lemma_table_view_update, prefixes_unique, table_total, table_view,
    train_sents_from, train_text, train_toks, train_toks_from, window_count, window_prefix,
};
use crate::sample::weighted_pick;
use crate::token::{Token, TokenV, dup_token, dup_tokens, token_eq};
use crate::tokenize::{
    get_tokens, lemma_cost_nonneg, lemma_sentence_tokens_count, lemma_sentences_cost,
    sents_cost_from, spec_sentence_tokens, spec_sentences, spec_tokenize, split_sentences,
};

verus! {

/// What one token contributes to the surface text: a word its characters,
/// `End` a sentence-terminating period, `Start` nothing.
pub open spec fn piece(t: TokenV) -> Seq<char> {
    match t {
        TokenV::Start => seq![],
        TokenV::End => seq!['.'],
        TokenV::Word(w) => w,
    }
}

/// Detokenization: the pieces of the tokens, joined with single spaces,
/// in order.
pub open spec fn detok(toks: Seq<TokenV>) -> Seq<char>
    decreases toks.len(),
{
    if toks.len() == 0 {
        seq![]
    } else if toks.len() == 1 {
        piece(toks[0])
    } else {
        detok(toks.drop_last()) + seq![' '] + piece(toks.last())
    }
}

/// The most tokens one generation walk may accumulate. A corpus whose
/// n-grams form a closed cycle with no `End` edge could otherwise
/// generate forever; stopping at a maximum length is the safeguard this
/// design adds against that.
pub const GENERATION_CAP: usize = 65536;

/// Whether the model holds a prefix whose first token is `Start`.
pub open spec fn has_start(m: Map<Seq<TokenV>, Map<TokenV, nat>>) -> bool {
    exists|p: Seq<TokenV>| m.contains_key(p) && p.len() >= 1 && p[0] == TokenV::Start
}

/// A complete generation walk over the model: it begins with a trained
/// prefix whose first token is `Start`; each later token is a successor
/// the model holds for the window of `plen` tokens before it; no token
/// after the prefix is `End` except possibly the last; and it ends
/// either on a drawn `End` or on a window the model does not hold.
pub open spec fn gen_walk(m: Map<Seq<TokenV>, Map<TokenV, nat>>, plen: nat, toks: Seq<TokenV>) -> bool {
    &&& plen >= 1
    &&& toks.len() >= plen
    &&& m.contains_key(toks.take(plen as int))
    &&& toks[0] == TokenV::Start
    &&& forall|i: int|
        plen <= i < toks.len() ==> m.contains_key(#[trigger] toks.subrange(i - plen, i))
            && m[toks.subrange(i - plen, i)].contains_key(toks[i])
    &&& forall|i: int| plen <= i < toks.len() - 1 ==> toks[i] != TokenV::End
    &&& ((toks.len() > plen && toks.last() == TokenV::End) || !m.contains_key(
        toks.subrange(toks.len() - plen, toks.len() as int),
    ) || toks.len() >= GENERATION_CAP)
}

/// The Markov chain engine: a model from prefixes of `prefix_len` tokens
/// to successor distributions, built purely additively by training.
pub struct Markov {
    table: Vec<Entry>,
    prefix_len: usize,
    total: u64,
}

impl View for Markov {
    type V = Map<Seq<TokenV>, Map<TokenV, nat>>;

    /// The mathematical model: prefix -> successor -> count.
    closed spec fn view(&self) -> Map<Seq<TokenV>, Map<TokenV, nat>> {
        table_view(self.table@)
    }
}

impl Markov {
    /// The fixed prefix length (the n-gram order) of this engine.
    pub closed spec fn plen(&self) -> nat {
        self.prefix_len as nat
    }

    /// An upper bound the engine maintains on every count it holds; it
    /// rises by one per observed window.
    pub closed spec fn total_count(&self) -> nat {
        self.total as nat
    }

    /// Well-formedness: the prefix length is at least one; prefixes are
    /// unique and of length `prefix_len`; every distribution is non-empty
    /// with unique successors and strictly positive counts; and the sum
    /// of all counts is bounded by the observation counter.
    pub closed spec fn wf(&self) -> bool {
        &&& self.prefix_len >= 1
        &&& prefixes_unique(self.table@)
        &&& forall|i: int|
            0 <= i < self.table@.len() ==> (#[trigger] self.table@[i]).prefix@.len()
                == self.prefix_len
        &&& forall|i: int|
            0 <= i < self.table@.len() ==> (#[trigger] self.table@[i]).counts@.len() >= 1
        &&& forall|i: int|
            0 <= i < self.table@.len() ==> dist_keys_unique((#[trigger] self.table@[i]).counts@)
        &&& forall|a: int, b: int|
            0 <= a < self.table@.len() && 0 <= b < (#[trigger] self.table@[a]).counts@.len()
                ==> (#[trigger] self.table@[a].counts@[b]).1 >= 1
        &&& table_total(self.table@) <= self.total
    }

    /// A fresh, untrained engine with the given n-gram order.
    pub fn new(prefix_len: usize) -> (r: Markov)
        requires
            prefix_len >= 1,
        ensures
            r.wf(),
            r@ == Map::<Seq<TokenV>, Map<TokenV, nat>>::empty(),
            r.plen() == prefix_len,
            r.total_count() == 0,
    {
        Markov { table: Vec::new(), prefix_len, total: 0 }
    }

    /// The fixed prefix length, for callers.
    pub fn prefix_len(&self) -> (n: usize)
        ensures
            n == self.plen(),
    {
        self.prefix_len
    }

    /// The observation counter, for callers that must bound training.
    pub fn total(&self) -> (t: u64)
        ensures
            t == self.total_count(),
    {
        self.total
    }

    /// How many distinct prefixes the model holds.
    pub fn len(&self) -> (n: usize)
        requires
            self.wf(),
        ensures
            n == self@.dom().len(),
    {
        proof {
            lemma_table_view_dom_len(self.table@);
        }
        self.table.len()
    }

    /// The count the model holds for one (prefix, successor) pair, zero
    /// when it was never observed.
    pub fn count_for(&self, prefix: &Vec<Token>, succ: &Token) -> (c: u64)
        requires
            self.wf(),
        ensures
            c == count_of(self@, prefix.deep_view(), succ@),
    {
        proof {
            lemma_table_view_dom(self.table@);
        }
        match find_prefix(&self.table, prefix) {
            None => 0,
            Some(i) => {
                proof {
                    lemma_table_view_at(self.table@, i as int);
                    lemma_dist_view_dom(self.table@[i as int].counts@);
                }
                match find_succ(&self.table[i].counts, succ) {
                    None => 0,
                    Some(j) => {
                        proof {
                            lemma_dist_view_at(self.table@[i as int].counts@, j as int);
                        }
                        self.table[i].counts[j].1
                    },
                }
            },
        }
    }

    /// Law: every prefix key of a well-formed engine's model has length
    /// exactly the engine's prefix length.
    pub proof fn lemma_prefix_key_lengths(&self)
        requires
            self.wf(),
        ensures
            forall|p: Seq<TokenV>| self@.contains_key(p) ==> p.len() == self.plen(),
    {
        lemma_table_view_dom(self.table@);
        assert forall|p: Seq<TokenV>| self@.contains_key(p) implies p.len() == self.plen() by {
            let i = choose|i: int|
                0 <= i < self.table@.len() && self.table@[i].prefix.deep_view() == p;
            assert(self.table@[i].prefix@.len() == self.prefix_len);
        }
    }

    /// Law: every count a well-formed engine's model holds is a positive
    /// integer.
    pub proof fn lemma_counts_positive(&self)
        requires
            self.wf(),
        ensures
            forall|p: Seq<TokenV>, s: TokenV|
                self@.contains_key(p) && #[trigger] self@[p].contains_key(s) ==> self@[p][s] >= 1,
    {
        assert forall|p: Seq<TokenV>, s: TokenV|
            self@.contains_key(p) && #[trigger] self@[p].contains_key(s) implies self@[p][s]
            >= 1 by {
            lemma_table_view_dom(self.table@);
            let i = choose|i: int|
                0 <= i < self.table@.len() && self.table@[i].prefix.deep_view() == p;
            lemma_table_view_at(self.table@, i);
            lemma_dist_view_dom(self.table@[i].counts@);
            let j = choose|j: int|
                0 <= j < self.table@[i].counts@.len() && self.table@[i].counts@[j].0@ == s;
            lemma_dist_view_at(self.table@[i].counts@, j);
            assert(self.table@[i].counts@[j].1 >= 1);
        }
    }

    /// Record one observed window: the count of (prefix, successor)
    /// rises by exactly one, entries being created at one.
    fn add_observation(&mut self, prefix: Vec<Token>, succ: Token)
        requires
            old(self).wf(),
            prefix@.len() == old(self).plen(),
            old(self).total_count() + 1 <= u64::MAX,
        ensures
            final(self).wf(),
            final(self).plen() == old(self).plen(),
            final(self)@ == add_window(old(self)@, prefix.deep_view(), succ@),
            final(self).total_count() == old(self).total_count() + 1,
    {
        let ghost m0 = old(self)@;
        let ghost p = prefix.deep_view();
        let ghost s = succ@;
        let ghost t0 = self.table@;
        proof {
            lemma_table_view_dom(t0);
        }
        match find_prefix(&self.table, &prefix) {
            Some(i) => {
                proof {
                    lemma_table_view_at(t0, i as int);
                    assert forall|b: int| 0 <= b < t0[i as int].counts@.len() implies (
                    #[trigger] t0[i as int].counts@[b]).1 >= 1 by {
                        assert(t0[i as int].counts@[b].1 >= 1);
                    }
                    lemma_dist_le_table_total(t0, i as int);
                }
                let e = self.table.remove(i);
                let Entry { prefix: kept, mut counts } = e;
                let ghost cs0 = counts@;
                proof {
                    lemma_dist_view_dom(cs0);
                }
                match find_succ(&counts, &succ) {
                    Some(j) => {
                        proof {
                            lemma_dist_view_at(cs0, j as int);
                            lemma_count_le_dist_total(cs0, j as int);
                        }
                        let c = counts[j].1;
                        let tok = dup_token(&counts[j].0);
                        counts[j] = (tok, c + 1);
                        proof {
                            lemma_dist_view_update(cs0, j as int, counts@[j as int]);
                            lemma_dist_total_update(cs0, j as int, counts@[j as int]);
                        }
                        let e2 = Entry { prefix: kept, counts };
                        self.table.insert(i, e2);
                        self.total = self.total + 1;
                        proof {
                            assert(self.table@ =~= t0.update(i as int, self.table@[i as int]));
                            lemma_table_view_update(t0, i as int, self.table@[i as int]);
                            lemma_table_total_update(t0, i as int, self.table@[i as int]);
                            assert(self@ =~= add_window(m0, p, s));
                            assert(self.wf());
                        }
                    },
                    None => {
                        counts.push((succ, 1));
                        proof {
                            lemma_dist_view_push(cs0, counts@.last());
                            lemma_dist_total_push(cs0, counts@.last());
                        }
                        let e2 = Entry { prefix: kept, counts };
                        self.table.insert(i, e2);
                        self.total = self.total + 1;
                        proof {
                            assert(self.table@ =~= t0.update(i as int, self.table@[i as int]));
                            lemma_table_view_update(t0, i as int, self.table@[i as int]);
                            lemma_table_total_update(t0, i as int, self.table@[i as int]);
                            assert(self@ =~= add_window(m0, p, s));
                            assert(self.wf());
                        }
                    },
                }
            },
            None => {
                let mut counts: Vec<(Token, u64)> = Vec::new();
                counts.push((succ, 1));
                proof {
                    assert(counts@.drop_last() =~= Seq::<(Token, u64)>::empty());
                    assert(dist_view(Seq::<(Token, u64)>::empty()) == Map::<TokenV, nat>::empty());
                    assert(counts@.last().0@ == s && counts@.last().1 == 1);
                    assert(dist_view(counts@) == Map::<TokenV, nat>::empty().insert(s, 1nat));
                    assert(dist_total(Seq::<(Token, u64)>::empty()) == 0);
                    assert(dist_total(counts@) == 1);
                }
                let e2 = Entry { prefix, counts };
                self.table.push(e2);
                self.total = self.total + 1;
                proof {
                    lemma_table_view_push(t0, self.table@.last());
                    lemma_table_total_push(t0, self.table@.last());
                    assert(!m0.contains_key(p));
                    assert(self@ =~= add_window(m0, p, s));
                    assert(self.wf());
                }
            },
        }
    }

    /// A copy of `toks[from..to]` with the same mathematical value.
    fn slice_tokens(toks: &Vec<Token>, from: usize, to: usize) -> (r: Vec<Token>)
        requires
            from <= to <= toks@.len(),
        ensures
            r.deep_view() == toks.deep_view().subrange(from as int, to as int),
    {
        let mut r: Vec<Token> = Vec::new();
        let mut k: usize = from;
        while k < to
            invariant
                from <= k <= to <= toks@.len(),
                r@.len() == k - from,
                forall|j: int| 0 <= j < k - from ==> r@[j]@ == toks@[from + j]@,
            decreases to - k,
        {
            r.push(dup_token(&toks[k]));
            k = k + 1;
        }
        proof {
            assert(r.deep_view() =~= toks.deep_view().subrange(from as int, to as int));
        }
        r
    }

    /// Slide the window over one sentence's token sequence, recording
    /// every window. A sentence shorter than `prefix_len + 1` tokens
    /// contributes nothing.
    fn train_tokens(&mut self, toks: &Vec<Token>)
        requires
            old(self).wf(),
            old(self).total_count() + window_count(
                toks@.len() as int,
                old(self).plen(),
            ) <= u64::MAX,
        ensures
            final(self).wf(),
            final(self).plen() == old(self).plen(),
            final(self)@ == train_toks(old(self)@, toks.deep_view(), old(self).plen()),
            final(self).total_count() == old(self).total_count() + window_count(
                toks@.len() as int,
                old(self).plen(),
            ),
    {
        let ghost m0 = old(self)@;
        let ghost tv = toks.deep_view();
        let ghost plen = old(self).plen();
        let np = self.prefix_len;
        let n = toks.len();
        if n <= np {
            return ;
        }
        let mut i: usize = 0;
        while i + np < n
            invariant
                self.wf(),
                self.plen() == plen,
                np == plen,
                tv == toks.deep_view(),
                tv.len() == toks@.len(),
                n == toks@.len(),
                toks@.len() > np,
                i + np <= toks@.len(),
                self.total_count() == old(self).total_count() + i,
                old(self).total_count() + window_count(tv.len() as int, plen) <= u64::MAX,
                train_toks_from(self@, tv, plen, i as int) == train_toks_from(m0, tv, plen, 0),
            decreases toks@.len() - i,
        {
            let ghost mcur = self@;
            let prefix = Self::slice_tokens(toks, i, i + np);
            let succ = dup_token(&toks[i + np]);
            proof {
                assert(prefix.deep_view() == window_prefix(tv, plen, i as int));
                assert(succ@ == tv[i + np]);
                assert(prefix@.len() == np);
            }
            self.add_observation(prefix, succ);
            proof {
                assert(self@ == add_window(mcur, window_prefix(tv, plen, i as int), tv[i + np]));
                assert(train_toks_from(self@, tv, plen, i + 1) == train_toks_from(
                    mcur,
                    tv,
                    plen,
                    i as int,
                ));
            }
            i = i + 1;
        }
        proof {
            assert(i == tv.len() - plen);
            assert(train_toks_from(self@, tv, plen, i as int) == self@);
        }
    }

    /// Feed the engine raw text: split it on sentence terminators,
    /// tokenize every sentence, and record every window. Purely additive:
    /// training twice doubles the contribution.
    pub fn feed_text(&mut self, text: &str)
        requires
            old(self).wf(),
            old(self).total_count() + 2 * text@.len() + 2 <= u64::MAX,
        ensures
            final(self).wf(),
            final(self).plen() == old(self).plen(),
            final(self)@ == train_text(old(self)@, text@, old(self).plen()),
            final(self).total_count() <= old(self).total_count() + 2 * text@.len() + 2,
    {
        let ghost m0 = old(self)@;
        let ghost plen = old(self).plen();
        let ghost ss = spec_tokenize(text@);
        let sents = split_sentences(text);
        let ghost pieces = sents.deep_view();
        proof {
            assert(pieces == spec_sentences(text@));
            assert(ss.len() == pieces.len());
            lemma_sentences_cost(text@, 0, Seq::<char>::empty());
            assert(text@.subrange(0, 0) =~= Seq::<char>::empty());
        }
        let ghost full = sents_cost_from(pieces, 0);
        let mut k: usize = 0;
        while k < sents.len()
            invariant
                self.wf(),
                self.plen() == plen,
                pieces == sents.deep_view(),
                pieces == spec_sentences(text@),
                ss == spec_tokenize(text@),
                ss.len() == pieces.len(),
                sents@.len() == pieces.len(),
                k <= pieces.len(),
                full == sents_cost_from(pieces, 0),
                full <= 2 * text@.len() + 2,
                old(self).total_count() + 2 * text@.len() + 2 <= u64::MAX,
                self.total_count() + sents_cost_from(pieces, k as int) <= old(self).total_count()
                    + full,
                train_sents_from(self@, ss, plen, k as int) == train_sents_from(m0, ss, plen, 0),
            decreases sents@.len() - k,
        {
            let ghost mcur = self@;
            let toks = get_tokens(sents[k].as_str());
            proof {
                assert(sents[k as int]@ == pieces[k as int]);
                assert(toks.deep_view() == spec_sentence_tokens(pieces[k as int]));
                assert(ss == Seq::new(
                    spec_sentences(text@).len(),
                    |j: int| spec_sentence_tokens(spec_sentences(text@)[j]),
                ));
                assert(ss[k as int] == spec_sentence_tokens(pieces[k as int]));
                lemma_sentence_tokens_count(pieces[k as int]);
                lemma_cost_nonneg(pieces, k + 1);
                assert(sents_cost_from(pieces, k as int) == pieces[k as int].len() + 2
                    + sents_cost_from(pieces, k + 1));
                assert(window_count(toks.deep_view().len() as int, plen) <= pieces[k as int].len()
                    + 2);
            }
            self.train_tokens(&toks);
            proof {
                assert(self@ == train_toks(mcur, ss[k as int], plen));
                assert(train_sents_from(self@, ss, plen, k + 1) == train_sents_from(
                    mcur,
                    ss,
                    plen,
                    k as int,
                ));
            }
            k = k + 1;
        }
        proof {
            lemma_cost_nonneg(pieces, k as int);
            assert(train_sents_from(self@, ss, plen, k as int) == self@);
        }
    }

    /// Draw the next token for a prefix: `None` exactly when the prefix
    /// was never trained, otherwise some successor that the prefix's
    /// distribution holds. Which one is random, weighted by the counts.
    pub fn predict_from_tokens(&self, prefix: Vec<Token>) -> (r: Option<Token>)
        requires
            self.wf(),
            prefix@.len() == self.plen(),
        ensures
            r is Some <==> self@.contains_key(prefix.deep_view()),
            r is Some ==> self@[prefix.deep_view()].contains_key(r->Some_0@),
    {
        proof {
            lemma_table_view_dom(self.table@);
        }
        match find_prefix(&self.table, &prefix) {
            None => None,
            Some(i) => {
                proof {
                    lemma_table_view_at(self.table@, i as int);
                    assert forall|b: int|
                        0 <= b < self.table@[i as int].counts@.len() implies (
                    #[trigger] self.table@[i as int].counts@[b]).1 >= 1 by {
                        assert(self.table@[i as int].counts@[b].1 >= 1);
                    }
                    lemma_dist_view_dom(self.table@[i as int].counts@);
                }
                match crate::sample::weighted_choice(&self.table[i].counts) {
                    Ok(t) => Some(t),
                    Err(_) => {
                        proof {
                            assert(false);
                        }
                        None
                    },
                }
            },
        }
    }

    /// The sum of one distribution's counts.
    fn dist_sum(cs: &Vec<(Token, u64)>) -> (r: u64)
        requires
            dist_total(cs@) <= u64::MAX as int,
        ensures
            r as int == dist_total(cs@),
    {
        let mut acc: u64 = 0;
        let mut j: usize = 0;
        proof {
            assert(cs@.take(0) =~= Seq::<(Token, u64)>::empty());
        }
        while j < cs.len()
            invariant
                j <= cs@.len(),
                acc as int == dist_total(cs@.take(j as int)),
                dist_total(cs@) <= u64::MAX as int,
            decreases cs@.len() - j,
        {
            proof {
                assert(cs@.take(j + 1).drop_last() =~= cs@.take(j as int));
                assert(cs@.take(j + 1).last() == cs@[j as int]);
                lemma_dist_total_take(cs@, j + 1);
            }
            acc = acc + cs[j].1;
            j = j + 1;
        }
        proof {
            assert(cs@.take(cs@.len() as int) =~= cs@);
        }
        acc
    }

    /// Map a token sequence back to surface text: each token's piece,
    /// joined with single spaces.
    fn detokenize(toks: &Vec<Token>) -> (r: String)
        ensures
            r@ == detok(toks.deep_view()),
    {
        let ghost tv = toks.deep_view();
        let mut out = String::new();
        let mut i: usize = 0;
        proof {
            assert(out@ =~= detok(tv.take(0)));
        }
        while i < toks.len()
            invariant
                i <= toks@.len(),
                tv == toks.deep_view(),
                tv.len() == toks@.len(),
                out@ == detok(tv.take(i as int)),
            decreases toks@.len() - i,
        {
            let ghost pre = out@;
            if i > 0 {
                out.append(" ");
            }
            match &toks[i] {
                Token::Start => {},
                Token::End => out.append("."),
                Token::Word(w) => out.append(w.as_str()),
            }
            proof {
                reveal_strlit(" ");
                reveal_strlit(".");
                assert(tv.take(i + 1).drop_last() =~= tv.take(i as int));
                assert(tv.take(i + 1).last() == tv[i as int]);
                if i == 0 {
                    assert(out@ =~= piece(tv[0]));
                    assert(detok(tv.take(1)) == piece(tv[0]));
                } else {
                    assert(out@ =~= pre + seq![' '] + piece(tv[i as int]));
                }
            }
            i = i + 1;
        }
        proof {
            assert(tv.take(tv.len() as int) =~= tv);
        }
        out
    }

    /// Generate one utterance: pick a starting prefix among those that
    /// begin with `Start`, weighted by their distributions' totals, then
    /// walk the model, drawing each successor weighted by its count,
    /// until an `End` is drawn or an untrained window is reached, and
    /// detokenize the walk. Fails with `NoStartState` exactly when no
    /// trained prefix begins with `Start`.
    pub fn markov(&self) -> (r: Result<String, MarkovError>)
        requires
            self.wf(),
        ensures
            r is Err <==> !has_start(self@),
            r is Err ==> r == Err::<String, MarkovError>(MarkovError::NoStartState),
            r is Ok ==> exists|toks: Seq<TokenV>|
                gen_walk(self@, self.plen(), toks) && r->Ok_0@ == detok(toks),
    {
        let ghost m = self@;
        let ghost plen = self.plen();
        let np = self.prefix_len;
        proof {
            lemma_table_view_dom(self.table@);
        }
        let mut sidx: Vec<usize> = Vec::new();
        let mut sweights: Vec<u64> = Vec::new();
        let mut i: usize = 0;
        while i < self.table.len()
            invariant
                self.wf(),
                i <= self.table@.len(),
                sidx@.len() == sweights@.len(),
                forall|j: int|
                    0 <= j < sidx@.len() ==> (#[trigger] sidx@[j]) < self.table@.len()
                        && self.table@[sidx@[j] as int].prefix.deep_view().len() >= 1
                        && self.table@[sidx@[j] as int].prefix.deep_view()[0] == TokenV::Start,
                forall|j: int| 0 <= j < sweights@.len() ==> (#[trigger] sweights@[j]) >= 1,
                sidx@.len() == 0 ==> forall|j: int|
                    0 <= j < i ==> (#[trigger] self.table@[j]).prefix.deep_view().len() >= 1
                        && self.table@[j].prefix.deep_view()[0] != TokenV::Start,
            decreases self.table@.len() - i,
        {
            proof {
                assert(self.table@[i as int].prefix@.len() == self.prefix_len);
            }
            if token_eq(&self.table[i].prefix[0], &Token::Start) {
                proof {
                    assert forall|b: int|
                        0 <= b < self.table@[i as int].counts@.len() implies (
                    #[trigger] self.table@[i as int].counts@[b]).1 >= 1 by {
                        assert(self.table@[i as int].counts@[b].1 >= 1);
                    }
                    lemma_dist_le_table_total(self.table@, i as int);
                    lemma_dist_total_at_least_len(self.table@[i as int].counts@);
                }
                let w = Self::dist_sum(&self.table[i].counts);
                sidx.push(i);
                sweights.push(w);
            }
            i = i + 1;
        }
        if sidx.len() == 0 {
            proof {
                if has_start(m) {
                    let p = choose|p: Seq<TokenV>|
                        m.contains_key(p) && p.len() >= 1 && p[0] == TokenV::Start;
                    assert(exists|j: int|
                        0 <= j < self.table@.len() && self.table@[j].prefix.deep_view() == p);
                    let j = choose|j: int|
                        0 <= j < self.table@.len() && self.table@[j].prefix.deep_view() == p;
                    assert(self.table@[j].prefix.deep_view()[0] != TokenV::Start);
                    assert(false);
                }
            }
            return Err(MarkovError::NoStartState);
        }
        let k = match weighted_pick(&sweights) {
            Ok(k) => k,
            Err(_) => {
                proof {
                    assert(false);
                }
                0
            },
        };
        let ei = sidx[k];
        let ghost p0 = self.table@[ei as int].prefix.deep_view();
        proof {
            lemma_table_view_at(self.table@, ei as int);
            assert(m.contains_key(p0));
            assert(p0.len() == plen);
        }
        let mut result = dup_tokens(&self.table[ei].prefix);
        let mut current = dup_tokens(&result);
        proof {
            assert(result.deep_view() == p0);
            assert(p0.take(plen as int) =~= p0);
            assert(p0.subrange(p0.len() - plen, p0.len() as int) =~= p0);
            assert(has_start(m));
        }
        while result.len() < GENERATION_CAP
            invariant
                self.wf(),
                m == self@,
                plen == self.plen(),
                np == self.prefix_len,
                plen >= 1,
                has_start(m),
                current@.len() == plen,
                result.deep_view().len() >= plen,
                current.deep_view() == result.deep_view().subrange(
                    result.deep_view().len() - plen,
                    result.deep_view().len() as int,
                ),
                m.contains_key(result.deep_view().take(plen as int)),
                result.deep_view()[0] == TokenV::Start,
                forall|ii: int|
                    plen <= ii < result.deep_view().len() ==> m.contains_key(
                        #[trigger] result.deep_view().subrange(ii - plen, ii),
                    ) && m[result.deep_view().subrange(ii - plen, ii)].contains_key(
                        result.deep_view()[ii],
                    ),
                forall|ii: int|
                    plen <= ii < result.deep_view().len() ==> result.deep_view()[ii]
                        != TokenV::End,
            decreases GENERATION_CAP - result.deep_view().len(),
        {
            let ghost rv = result.deep_view();
            match find_prefix(&self.table, &current) {
                None => {
                    proof {
                        lemma_table_view_dom(self.table@);
                        assert(!m.contains_key(rv.subrange(rv.len() - plen, rv.len() as int)));
                        assert(gen_walk(m, plen, rv));
                    }
                    return Ok(Self::detokenize(&result));
                },
                Some(ti) => {
                    proof {
                        lemma_table_view_at(self.table@, ti as int);
                        assert forall|b: int|
                            0 <= b < self.table@[ti as int].counts@.len() implies (
                        #[trigger] self.table@[ti as int].counts@[b]).1 >= 1 by {
                            assert(self.table@[ti as int].counts@[b].1 >= 1);
                        }
                        lemma_dist_view_dom(self.table@[ti as int].counts@);
                    }
                    let succ = match crate::sample::weighted_choice(&self.table[ti].counts) {
                        Ok(t) => t,
                        Err(_) => {
                            proof {
                                assert(false);
                            }
                            Token::End
                        },
                    };
                    let ghost sv = succ@;
                    proof {
                        assert(m[current.deep_view()].contains_key(sv));
                    }
                    let is_end = token_eq(&succ, &Token::End);
                    result.push(succ);
                    proof {
                        assert(result.deep_view() =~= rv.push(sv));
                        let rv2 = rv.push(sv);
                        assert(rv2.subrange(rv.len() - plen, rv.len() as int) =~= rv.subrange(
                            rv.len() - plen,
                            rv.len() as int,
                        ));
                        assert(rv2.take(plen as int) =~= rv.take(plen as int));
                        assert forall|ii: int|
                            plen <= ii < rv2.len() implies m.contains_key(
                            #[trigger] rv2.subrange(ii - plen, ii),
                        ) && m[rv2.subrange(ii - plen, ii)].contains_key(rv2[ii]) by {
                            assert(rv2.subrange(ii - plen, ii) =~= rv.subrange(ii - plen, ii));
                            if ii < rv2.len() - 1 {
                                assert(m.contains_key(rv.subrange(ii - plen, ii))
                                    && m[rv.subrange(ii - plen, ii)].contains_key(rv[ii]));
                            }
                        }
                    }
                    if is_end {
                        proof {
                            let rv2 = rv.push(sv);
                            assert(rv2.last() == TokenV::End);
                            assert(rv2.len() > plen);
                            assert(gen_walk(m, plen, rv2));
                        }
                        return Ok(Self::detokenize(&result));
                    }
                    current = Self::slice_tokens(&result, result.len() - np, result.len());
                    proof {
                        assert(current.deep_view().len() == plen);
                        assert(current@.len() == plen);
                    }
                },
            }
        }
        proof {
            assert(gen_walk(m, plen, result.deep_view()));
        }
        Ok(Self::detokenize(&result))
    }
}

} // verus!
