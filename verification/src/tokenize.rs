//! The tokenizer: raw text is split on sentence terminators, each sentence
//! is split on runs of whitespace, and every sentence's word list is
//! bracketed by `Start` and `End`.

use vstd::prelude::*;

use crate::token::{Token, TokenV};

verus! {

/// Whether `c` has the Unicode white-space property, as `char::is_whitespace`
/// decides it.
pub uninterp spec fn spec_whitespace(c: char) -> bool;

/// Relies on char::is_whitespace: whether `c` is Unicode white space,
/// a function of the character alone.
#[verifier::external_body]
fn is_space(c: char) -> (r: bool)
    ensures
        r == spec_whitespace(c),
{
    c.is_whitespace()
}

/// Whether `c` ends a sentence.
pub open spec fn spec_terminator(c: char) -> bool {
    c == '.' || c == '!' || c == '?'
}

fn is_terminator(c: char) -> (r: bool)
    ensures
        r == spec_terminator(c),
{
    c == '.' || c == '!' || c == '?'
}

/// The word tokens of `s[i..]`, given that the characters of `cur` have
/// already been read as the beginning of a word: maximal runs of
/// non-whitespace characters, each one a `Word`.
pub open spec fn word_toks_from(s: Seq<char>, i: int, cur: Seq<char>) -> Seq<TokenV>
    decreases s.len() - i,
{
    if i < 0 || i >= s.len() {
        if cur.len() == 0 {
            seq![]
        } else {
            seq![TokenV::Word(cur)]
        }
    } else if spec_whitespace(s[i]) {
        if cur.len() == 0 {
            word_toks_from(s, i + 1, seq![])
        } else {
            seq![TokenV::Word(cur)] + word_toks_from(s, i + 1, seq![])
        }
    } else {
        word_toks_from(s, i + 1, cur.push(s[i]))
    }
}

/// The token sequence of one sentence: its words, bracketed by the
/// boundary markers.
pub open spec fn spec_sentence_tokens(s: Seq<char>) -> Seq<TokenV> {
    seq![TokenV::Start] + word_toks_from(s, 0, seq![]) + seq![TokenV::End]
}

/// The sentence candidates of `text[i..]`: the pieces between sentence
/// terminators, `cur` being the piece read so far. Splitting always yields
/// one more piece than there are terminators; pieces may be empty.
pub open spec fn sentences_from(s: Seq<char>, i: int, cur: Seq<char>) -> Seq<Seq<char>>
    decreases s.len() - i,
{
    if i < 0 || i >= s.len() {
        seq![cur]
    } else if spec_terminator(s[i]) {
        seq![cur] + sentences_from(s, i + 1, seq![])
    } else {
        sentences_from(s, i + 1, cur.push(s[i]))
    }
}

pub open spec fn spec_sentences(text: Seq<char>) -> Seq<Seq<char>> {
    sentences_from(text, 0, seq![])
}

/// The whole tokenizer: one token sequence per sentence candidate.
pub open spec fn spec_tokenize(text: Seq<char>) -> Seq<Seq<TokenV>> {
    Seq::new(spec_sentences(text).len(), |k: int| spec_sentence_tokens(spec_sentences(text)[k]))
}

/// Push one token, tracked on the mathematical token sequence.
fn push_tok(toks: &mut Vec<Token>, t: Token)
    ensures
        final(toks).deep_view() == old(toks).deep_view() + seq![t@],
{
    let ghost tv = t@;
    toks.push(t);
    proof {
        assert(toks.deep_view() =~= old(toks).deep_view() + seq![tv]);
    }
}

/// Tokenize one sentence: split on runs of whitespace, wrap each fragment
/// verbatim in `Word`, and bracket with `Start` and `End`.
pub fn get_tokens(phrase: &str) -> (r: Vec<Token>)
    ensures
        r.deep_view() == spec_sentence_tokens(phrase@),
{
    let ghost s = phrase@;
    let n = phrase.unicode_len();
    let mut toks: Vec<Token> = Vec::new();
    push_tok(&mut toks, Token::Start);
    proof {
        assert(toks.deep_view() =~= seq![TokenV::Start]);
    }
    let mut i: usize = 0;
    let mut wstart: usize = 0;
    let mut inword: bool = false;
    while i < n
        invariant
            n == s.len(),
            s == phrase@,
            i <= n,
            inword ==> wstart < i,
            seq![TokenV::Start] + word_toks_from(s, 0, seq![]) =~= toks.deep_view()
                + word_toks_from(
                s,
                i as int,
                if inword {
                    s.subrange(wstart as int, i as int)
                } else {
                    seq![]
                },
            ),
        decreases n - i,
    {
        let ghost cur: Seq<char> = if inword {
            s.subrange(wstart as int, i as int)
        } else {
            seq![]
        };
        let ghost pre = toks.deep_view();
        let c = phrase.get_char(i);
        if is_space(c) {
            if inword {
                let w = phrase.substring_char(wstart, i);
                push_tok(&mut toks, Token::Word(w.to_owned()));
                inword = false;
                proof {
                    assert(word_toks_from(s, i as int, cur) == seq![TokenV::Word(cur)]
                        + word_toks_from(s, i + 1, seq![]));
                    assert(pre + word_toks_from(s, i as int, cur) =~= toks.deep_view()
                        + word_toks_from(s, i + 1, seq![]));
                }
            }
        } else {
            if !inword {
                wstart = i;
                inword = true;
            }
            proof {
                assert(s.subrange(wstart as int, i + 1) =~= cur.push(s[i as int]));
            }
        }
        i = i + 1;
    }
    let ghost cur: Seq<char> = if inword {
        s.subrange(wstart as int, i as int)
    } else {
        seq![]
    };
    let ghost pre = toks.deep_view();
    if inword {
        let w = phrase.substring_char(wstart, n);
        push_tok(&mut toks, Token::Word(w.to_owned()));
        proof {
            assert(pre + word_toks_from(s, n as int, cur) =~= toks.deep_view());
        }
    }
    push_tok(&mut toks, Token::End);
    proof {
        assert(toks.deep_view() =~= spec_sentence_tokens(s));
    }
    toks
}

/// Push one sentence candidate, tracked on the mathematical sequence.
fn push_sentence(out: &mut Vec<String>, w: String)
    ensures
        final(out).deep_view() == old(out).deep_view() + seq![w@],
{
    let ghost wv = w@;
    out.push(w);
    proof {
        assert(out.deep_view() =~= old(out).deep_view() + seq![wv]);
    }
}

/// Split raw text on sentence terminators. Every piece is kept, so there
/// is always one more piece than there are terminators.
pub fn split_sentences(text: &str) -> (r: Vec<String>)
    ensures
        r.deep_view() == spec_sentences(text@),
{
    let ghost s = text@;
    let n = text.unicode_len();
    let mut out: Vec<String> = Vec::new();
    proof {
        assert(out.deep_view() =~= Seq::<Seq<char>>::empty());
    }
    let mut i: usize = 0;
    let mut sstart: usize = 0;
    proof {
        assert(s.subrange(0, 0) =~= Seq::<char>::empty());
    }
    while i < n
        invariant
            n == s.len(),
            s == text@,
            sstart <= i <= n,
            spec_sentences(s) =~= out.deep_view() + sentences_from(
                s,
                i as int,
                s.subrange(sstart as int, i as int),
            ),
        decreases n - i,
    {
        let ghost cur = s.subrange(sstart as int, i as int);
        let ghost pre = out.deep_view();
        let c = text.get_char(i);
        if is_terminator(c) {
            let piece = text.substring_char(sstart, i);
            push_sentence(&mut out, piece.to_owned());
            sstart = i + 1;
            proof {
                assert(sentences_from(s, i as int, cur) == seq![cur] + sentences_from(
                    s,
                    i + 1,
                    seq![],
                ));
                assert(s.subrange(i + 1, i + 1) =~= Seq::<char>::empty());
                assert(pre + sentences_from(s, i as int, cur) =~= out.deep_view()
                    + sentences_from(s, i + 1, s.subrange(i + 1, i + 1)));
            }
        } else {
            proof {
                assert(s.subrange(sstart as int, i + 1) =~= cur.push(s[i as int]));
            }
        }
        i = i + 1;
    }
    let ghost cur = s.subrange(sstart as int, i as int);
    let ghost pre = out.deep_view();
    let piece = text.substring_char(sstart, n);
    push_sentence(&mut out, piece.to_owned());
    proof {
        assert(sentences_from(s, n as int, cur) == seq![cur]);
        assert(pre + sentences_from(s, n as int, cur) =~= out.deep_view());
        assert(out.deep_view() =~= spec_sentences(s));
    }
    out
}

/// The cost of the sentence pieces from position `k` on: each piece's
/// length plus two, which bounds the token count of its sentence.
pub open spec fn sents_cost_from(ss: Seq<Seq<char>>, k: int) -> int
    decreases ss.len() - k,
{
    if k < 0 || k >= ss.len() {
        0
    } else {
        ss[k].len() + 2 + sents_cost_from(ss, k + 1)
    }
}

pub proof fn lemma_cost_nonneg(ss: Seq<Seq<char>>, k: int)
    ensures
        sents_cost_from(ss, k) >= 0,
    decreases ss.len() - k,
{
    if 0 <= k < ss.len() {
        lemma_cost_nonneg(ss, k + 1);
    }
}

proof fn lemma_cost_concat(c: Seq<char>, rest: Seq<Seq<char>>, k: int)
    requires
        k >= 0,
    ensures
        sents_cost_from(seq![c] + rest, k + 1) == sents_cost_from(rest, k),
    decreases rest.len() - k,
{
    if k < rest.len() {
        assert((seq![c] + rest)[k + 1] == rest[k]);
        lemma_cost_concat(c, rest, k + 1);
    }
}

/// The total cost of the pieces that splitting yields is bounded by twice
/// the text's length plus two.
pub proof fn lemma_sentences_cost(s: Seq<char>, i: int, cur: Seq<char>)
    requires
        0 <= i <= s.len(),
    ensures
        sents_cost_from(sentences_from(s, i, cur), 0) <= 2 * (s.len() - i) + cur.len() + 2,
    decreases s.len() - i,
{
    if i >= s.len() {
        assert(sents_cost_from(seq![cur], 1) == 0);
        assert(sents_cost_from(seq![cur], 0) == cur.len() + 2);
    } else if spec_terminator(s[i]) {
        let rest = sentences_from(s, i + 1, seq![]);
        lemma_sentences_cost(s, i + 1, seq![]);
        lemma_cost_concat(cur, rest, 0);
        assert((seq![cur] + rest)[0] == cur);
    } else {
        lemma_sentences_cost(s, i + 1, cur.push(s[i]));
    }
}

/// A sentence has no more words than characters.
pub proof fn lemma_word_toks_count(s: Seq<char>, i: int, cur: Seq<char>)
    requires
        0 <= i <= s.len(),
    ensures
        word_toks_from(s, i, cur).len() <= s.len() - i + (if cur.len() > 0 {
            1int
        } else {
            0
        }),
    decreases s.len() - i,
{
    if i < s.len() {
        if spec_whitespace(s[i]) {
            lemma_word_toks_count(s, i + 1, seq![]);
        } else {
            lemma_word_toks_count(s, i + 1, cur.push(s[i]));
        }
    }
}

/// A sentence's token count is bounded by its length plus two.
pub proof fn lemma_sentence_tokens_count(s: Seq<char>)
    ensures
        spec_sentence_tokens(s).len() <= s.len() + 2,
        spec_sentence_tokens(s).len() >= 2,
{
    lemma_word_toks_count(s, 0, seq![]);
}

} // verus!
