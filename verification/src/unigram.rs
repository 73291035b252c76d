//! The unigram model: one flat frequency distribution over the vocabulary.

use vstd::prelude::*;

use crate::assoc::{
    distinct_keys, find_key, get_count, has_key, inc_count, keys_of, lemma_get_at_index,
    lemma_get_props, lemma_mass_eq_sum, mass_of, sort_desc, sorted_desc, sum_counts,
};
use crate::ratio::Ratio;
use crate::rng::draw_below;
use crate::sample::select_token;
use crate::stream::{
    build_uni_stream, corpus_lines, corpus_stream, lemma_occ_le_len, lemma_occ_present, occ,
    str_views,
};
use crate::text::{
    end_tok, end_token, ends_with, normalize_seq, sentence_form, spaced, split_on, start_tok,
    start_token, starts_with,
};

verus! {

/// A unigram language model: token counts over a normalized corpus, with the
/// two sentinels counted once per non-empty line, and the same counts as a
/// probability table sorted by count descending.
pub struct Unigram {
    corpus: String,
    total: usize,
    counts: Vec<(String, usize)>,
    probs: Vec<(String, usize)>,
}

impl Unigram {
    /// Internal consistency: the two tables hold the same counts for the
    /// same keys, the probability table is sorted, and both carry the whole
    /// mass `total`.
    pub closed spec fn wf(&self) -> bool {
        &&& distinct_keys(self.counts@)
        &&& distinct_keys(self.probs@)
        &&& sorted_desc(self.probs@)
        &&& sum_counts(self.counts@) == self.total
        &&& sum_counts(self.probs@) == self.total
        &&& forall|k: Seq<char>| #[trigger] get_count(self.probs@, k) == get_count(self.counts@, k)
        &&& forall|k: Seq<char>| #[trigger] has_key(self.probs@, k) <==> has_key(self.counts@, k)
        &&& has_key(self.counts@, start_tok())
        &&& has_key(self.counts@, end_tok())
        &&& self.probs@.len() == self.counts@.len()
    }

    /// The normalized corpus the model was trained on.
    pub closed spec fn spec_corpus(&self) -> Seq<char> {
        self.corpus@
    }

    /// The count recorded for token `t` (0 when `t` was never seen).
    pub closed spec fn spec_count(&self, t: Seq<char>) -> int {
        get_count(self.counts@, t) as int
    }

    /// The total number of counted tokens, sentinels included.
    pub closed spec fn spec_total(&self) -> int {
        self.total as int
    }

    /// Whether `t` is in the vocabulary.
    pub closed spec fn spec_vocab_contains(&self, t: Seq<char>) -> bool {
        has_key(self.counts@, t)
    }

    /// The vocabulary, one entry per distinct token.
    pub closed spec fn spec_vocab(&self) -> Seq<Seq<char>> {
        keys_of(self.counts@)
    }

    /// Trains a unigram model: normalizes the text, splits it into lines,
    /// skips empty lines, wraps every other line in the sentinels, and counts
    /// every token of the resulting stream.
    pub fn construt(text: &str) -> (m: Unigram)
        ensures
            m.wf(),
            m.spec_corpus() == normalize_seq(text@),
            m.spec_total() == corpus_stream(text@).len(),
            forall|t: Seq<char>| #[trigger] m.spec_count(t) == occ(corpus_stream(text@), t),
            forall|t: Seq<char>| #[trigger]
                m.spec_vocab_contains(t) <==> (t == start_tok() || t == end_tok() || occ(
                    corpus_stream(text@),
                    t,
                ) > 0),
    {
        let (corpus, lines) = corpus_lines(text);
        let ghost gl = split_on(normalize_seq(text@), '\n');
        let stream = build_uni_stream(&lines, Ghost(gl));
        let ghost sv = str_views(stream@);
        proof {
            assert(sv == corpus_stream(text@));
        }
        let mut counts: Vec<(String, usize)> = Vec::new();
        counts.push((start_token(), 0));
        counts.push((end_token(), 0));
        proof {
            let m0 = counts@;
            assert(m0[0].0@ == start_tok() && m0[0].1 == 0);
            assert(m0[1].0@ == end_tok() && m0[1].1 == 0);
            assert(distinct_keys(m0));
            let md = m0.drop_last();
            let me = md.drop_last();
            assert(me =~= Seq::<(String, usize)>::empty());
            assert(md.last() == m0[0]);
            assert forall|t: Seq<char>| #[trigger] get_count(m0, t) == 0 by {
                assert(get_count(me, t) == 0);
                assert(get_count(md, t) == if md.last().0@ == t {
                    md.last().1
                } else {
                    get_count(me, t)
                });
                assert(get_count(m0, t) == if m0.last().0@ == t {
                    m0.last().1
                } else {
                    get_count(md, t)
                });
            }
            assert forall|t: Seq<char>| #[trigger] has_key(m0, t) <==> (t == start_tok() || t
                == end_tok()) by {
                assert(!has_key(me, t));
                assert(has_key(md, t) == (md.last().0@ == t || has_key(me, t)));
                assert(has_key(m0, t) == (m0.last().0@ == t || has_key(md, t)));
            }
            assert(sum_counts(me) == 0);
            assert(sum_counts(md) == 0);
            assert(sum_counts(m0) == 0);
            assert forall|t: Seq<char>| #[trigger] occ(sv.take(0), t) == 0 by {
                assert(sv.take(0) =~= Seq::<Seq<char>>::empty());
            }
        }
        let mut i: usize = 0;
        while i < stream.len()
            invariant
                i <= stream@.len(),
                sv == str_views(stream@),
                distinct_keys(counts@),
                sum_counts(counts@) == i,
                forall|t: Seq<char>| #[trigger] get_count(counts@, t) == occ(sv.take(i as int), t),
                forall|t: Seq<char>| #[trigger]
                    has_key(counts@, t) <==> (t == start_tok() || t == end_tok() || occ(
                        sv.take(i as int),
                        t,
                    ) > 0),
            decreases stream@.len() - i,
        {
            proof {
                assert(sv.take(i + 1).drop_last() =~= sv.take(i as int));
                assert(sv.take(i + 1).last() == sv[i as int]);
                assert(sv[i as int] == stream@[i as int]@);
                lemma_occ_le_len(sv.take(i as int), stream@[i as int]@);
            }
            inc_count(&mut counts, &stream[i]);
            proof {
                assert forall|t: Seq<char>| #[trigger] occ(sv.take(i + 1), t) == occ(
                    sv.take(i as int),
                    t,
                ) + (if t == sv[i as int] {
                    1int
                } else {
                    0int
                }) by {}
                assert forall|t: Seq<char>| occ(sv.take(i + 1), t) >= occ(sv.take(i as int), t) by {}
            }
            i += 1;
        }
        proof {
            assert(sv.take(stream@.len() as int) =~= sv);
        }
        let total = stream.len();
        let probs = sort_desc(&counts);
        Unigram { corpus, total, counts, probs }
    }

    /// The number of distinct vocabulary entries (sentinels included).
    pub fn vocab_len(&self) -> (n: usize)
        ensures
            n == self.spec_vocab().len(),
    {
        self.counts.len()
    }

    /// The normalized corpus the model was trained on.
    pub fn corpus(&self) -> (r: &String)
        ensures
            r@ == self.spec_corpus(),
    {
        &self.corpus
    }

    /// The probability of one token: its count over the total, as an exact
    /// ratio, never above one.  An unseen token has numerator 0; on an empty
    /// corpus the denominator is 0 as well (the undefined ratio, NaN as a
    /// float).
    pub fn prob(&self, word: &str) -> (r: Ratio)
        requires
            self.wf(),
        ensures
            r.num == self.spec_count(word@),
            r.den == self.spec_total(),
            r.num <= r.den,
    {
        proof {
            crate::assoc::lemma_get_le_sum(self.counts@, word@);
        }
        let key = String::from_str(word);
        let found = find_key(&self.counts, &key);
        match found {
            Some(i) => {
                proof {
                    lemma_get_at_index(self.counts@, i as int);
                }
                Ratio { num: self.counts[i].1, den: self.total }
            },
            None => {
                proof {
                    lemma_get_props(self.counts@, word@);
                }
                Ratio { num: 0, den: self.total }
            },
        }
    }

    /// Draws a random sentence: starting from the start sentinel, up to 100
    /// draws each pick one token by the inverse-CDF walk of `selection` over
    /// the descending probability table (the start sentinel is skipped during
    /// selection); the end sentinel ends the sentence, and after 100 draws
    /// the end sentinel is forced.  The result is always the start sentinel,
    /// then at most 100 drawn tokens each preceded by one space — every one a
    /// vocabulary member and neither sentinel — closed by one space and the
    /// end sentinel.
    pub fn random_sentence(&self) -> (res: String)
        requires
            self.wf(),
        ensures
            starts_with(res@, start_tok()),
            ends_with(res@, end_tok()),
            exists|toks: Seq<Seq<char>>|
                #[trigger] sentence_form(res@, toks) && toks.len() <= 100 && (forall|i: int|
                    0 <= i < toks.len() ==> self.spec_vocab_contains(#[trigger] toks[i]) && toks[i]
                        != start_tok() && toks[i] != end_tok()),
    {
        let st = start_token();
        let en = end_token();
        let mut res = start_token();
        let ghost mut toks: Seq<Seq<char>> = Seq::empty();
        proof {
            reveal_strlit(" ");
            assert(spaced(toks) =~= Seq::<char>::empty());
            assert(res@ =~= start_tok() + spaced(toks));
        }
        let mut d: usize = 0;
        while d < 100
            invariant
                self.wf(),
                st@ == start_tok(),
                en@ == end_tok(),
                res@ == start_tok() + spaced(toks),
                toks.len() <= d,
                d <= 100,
                forall|i: int|
                    0 <= i < toks.len() ==> self.spec_vocab_contains(#[trigger] toks[i]) && toks[i]
                        != start_tok() && toks[i] != end_tok(),
            decreases 100 - d,
        {
            if self.total > 0 {
                let val = draw_below(self.total);
                let sel = select_token(&self.probs, val, Some(&st));
                match sel {
                    Some(j) => {
                        let w = &self.probs[j].0;
                        proof {
                            lemma_get_at_index(self.probs@, j as int);
                        }
                        let ghost r0 = res@;
                        res.append(" ");
                        res.append(w.as_str());
                        proof {
                            reveal_strlit(" ");
                        }
                        if w.eq(&en) {
                            proof {
                                assert(res@ =~= start_tok() + spaced(toks) + seq![' ']
                                    + end_tok());
                                assert(sentence_form(res@, toks));
                                assert(res@.subrange(0, start_tok().len() as int) =~= start_tok());
                                assert(res@.subrange(
                                    res@.len() - end_tok().len(),
                                    res@.len() as int,
                                ) =~= end_tok());
                            }
                            return res;
                        }
                        proof {
                            let t0 = toks;
                            toks = toks.push(w@);
                            assert(toks.drop_last() =~= t0);
                            assert(toks.last() == w@);
                            assert(res@ =~= start_tok() + spaced(toks));
                        }
                    },
                    None => {
                        // no candidate qualified for this draw; nothing is appended
                    },
                }
            }
            d += 1;
        }
        res.append(" ");
        res.append(en.as_str());
        proof {
            reveal_strlit(" ");
            assert(res@ =~= start_tok() + spaced(toks) + seq![' '] + end_tok());
            assert(sentence_form(res@, toks));
            assert(res@.subrange(0, start_tok().len() as int) =~= start_tok());
            assert(res@.subrange(res@.len() - end_tok().len(), res@.len() as int) =~= end_tok());
        }
        res
    }

    /// The per-token probability terms of held-out text: the held-out corpus
    /// is normalized, wrapped and tokenized exactly as in training, and every
    /// token of the resulting stream is scored with its trained probability.
    /// Perplexity is `exp(-1/N * sum of ln(term))` over these N ratios, which
    /// a caller computes in floating point.
    pub fn perplexity(&self, text: &str) -> (r: Vec<Ratio>)
        requires
            self.wf(),
        ensures
            r@.len() == corpus_stream(text@).len(),
            forall|i: int|
                0 <= i < r@.len() ==> (#[trigger] r@[i]).num == self.spec_count(
                    corpus_stream(text@)[i],
                ) && r@[i].den == self.spec_total(),
    {
        let (_corpus, lines) = corpus_lines(text);
        let ghost gl = split_on(normalize_seq(text@), '\n');
        let stream = build_uni_stream(&lines, Ghost(gl));
        let ghost sv = str_views(stream@);
        proof {
            assert(sv == corpus_stream(text@));
        }
        let mut out: Vec<Ratio> = Vec::new();
        let mut i: usize = 0;
        while i < stream.len()
            invariant
                self.wf(),
                i <= stream@.len(),
                sv == str_views(stream@),
                out@.len() == i,
                forall|k: int|
                    0 <= k < i ==> (#[trigger] out@[k]).num == self.spec_count(sv[k])
                        && out@[k].den == self.spec_total(),
            decreases stream@.len() - i,
        {
            proof {
                assert(sv[i as int] == stream@[i as int]@);
            }
            let t = self.prob(stream[i].as_str());
            out.push(t);
            i += 1;
        }
        out
    }
}

/// The model's total count over an arbitrary list of tokens.
pub open spec fn vocab_mass(m: &Unigram, vs: Seq<Seq<char>>) -> int
    decreases vs.len(),
{
    if vs.len() == 0 {
        0
    } else {
        vocab_mass(m, vs.drop_last()) + m.spec_count(vs.last())
    }
}

proof fn lemma_vocab_mass_eq(m: &Unigram, vs: Seq<Seq<char>>)
    ensures
        vocab_mass(m, vs) == mass_of(m.spec_counts_table(), vs),
    decreases vs.len(),
{
    if vs.len() > 0 {
        lemma_vocab_mass_eq(m, vs.drop_last());
    }
}

impl Unigram {
    /// The raw counts table, for stating laws about the model.
    pub closed spec fn spec_counts_table(&self) -> Seq<(String, usize)> {
        self.counts@
    }
}

/// Total probability mass: summed over the model's vocabulary, the counts
/// add up exactly to the total.  Since each token's probability is its count
/// over the total, the probabilities over the vocabulary sum to one whenever
/// the total is positive.
pub proof fn lemma_unigram_total_mass(m: &Unigram)
    requires
        m.wf(),
    ensures
        vocab_mass(m, m.spec_vocab()) == m.spec_total(),
{
    lemma_mass_eq_sum(m.spec_counts_table());
    lemma_vocab_mass_eq(m, m.spec_vocab());
}

/// On the training corpus itself, every scored token was counted at least
/// once and no count exceeds the total: each perplexity term of a model on
/// its own training text is a ratio in (0, 1], so the perplexity value is
/// finite and at least 1.
pub proof fn lemma_training_term_positive(text: Seq<char>, i: int)
    requires
        0 <= i < corpus_stream(text).len(),
    ensures
        1 <= occ(corpus_stream(text), corpus_stream(text)[i]) <= corpus_stream(text).len(),
{
    lemma_occ_present(corpus_stream(text), i);
    lemma_occ_le_len(corpus_stream(text), corpus_stream(text)[i]);
}

} // verus!
