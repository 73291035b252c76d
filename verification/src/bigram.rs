//! The bigram model: per-predecessor conditional frequency distributions.

use vstd::prelude::*;

use crate::assoc::{
    distinct_keys, find_key, get_count, has_key, inc_count, lemma_get_at_index, lemma_get_props,
    lemma_get_push, sort_desc, sorted_desc, sum_counts,
};
use crate::ratio::Ratio;
use crate::rng::draw_below;
use crate::sample::select_token;
use crate::stream::{
    build_pairs, build_vocab, contains_str, corpus_lines, distinct_strs, distinct_views,
    lemma_occ_first_le_len, lemma_occ_pair_le_first, lemma_occ_pair_le_second,
    lemma_occ_second_nonneg, lemma_occ_second_present, lemma_sum_pair_total, occ_first, occ_pair,
    occ_second, pair_stream, pair_views, str_views, sum_pair_over,
};
use crate::text::{
    end_tok, end_token, ends_with, normalize_seq, sentence_form, spaced, split_on, start_tok,
    start_token, starts_with,
};

verus! {

/// The count stored for the pair `(w1, w2)`; 0 when absent.
pub open spec fn pget(m: Seq<((String, String), usize)>, w1: Seq<char>, w2: Seq<char>) -> usize
    decreases m.len(),
{
    if m.len() == 0 {
        0
    } else if m.last().0.0@ == w1 && m.last().0.1@ == w2 {
        m.last().1
    } else {
        pget(m.drop_last(), w1, w2)
    }
}

/// All pair keys are pairwise distinct.
pub open spec fn pdistinct(m: Seq<((String, String), usize)>) -> bool {
    forall|i: int, j: int|
        #![trigger m[i], m[j]]
        0 <= i < j < m.len() ==> !(m[i].0.0@ == m[j].0.0@ && m[i].0.1@ == m[j].0.1@)
}

proof fn lemma_pget_at_index(m: Seq<((String, String), usize)>, i: int)
    requires
        pdistinct(m),
        0 <= i < m.len(),
    ensures
        pget(m, m[i].0.0@, m[i].0.1@) == m[i].1,
    decreases m.len(),
{
    if i < m.len() - 1 {
        assert(pdistinct(m.drop_last()));
        assert(m.drop_last()[i] == m[i]);
        lemma_pget_at_index(m.drop_last(), i);
    }
}

proof fn lemma_pget_absent(m: Seq<((String, String), usize)>, w1: Seq<char>, w2: Seq<char>)
    requires
        forall|i: int| 0 <= i < m.len() ==> !((#[trigger] m[i]).0.0@ == w1 && m[i].0.1@ == w2),
    ensures
        pget(m, w1, w2) == 0,
    decreases m.len(),
{
    if m.len() > 0 {
        assert(m[m.len() - 1] == m.last());
        assert forall|i: int| 0 <= i < m.drop_last().len() implies !((#[trigger] m.drop_last()[i]).0.0@
            == w1 && m.drop_last()[i].0.1@ == w2) by {
            assert(m.drop_last()[i] == m[i]);
        }
        lemma_pget_absent(m.drop_last(), w1, w2);
    }
}

proof fn lemma_pget_update(m: Seq<((String, String), usize)>, i: int, v: usize)
    requires
        pdistinct(m),
        0 <= i < m.len(),
    ensures
        pdistinct(m.update(i, (m[i].0, v))),
        forall|a: Seq<char>, b: Seq<char>| #[trigger]
            pget(m.update(i, (m[i].0, v)), a, b) == if a == m[i].0.0@ && b == m[i].0.1@ {
                v
            } else {
                pget(m, a, b)
            },
    decreases m.len(),
{
    let m2 = m.update(i, (m[i].0, v));
    if i == m.len() - 1 {
        assert(m2.drop_last() =~= m.drop_last());
        assert(m2.last() == (m[i].0, v));
    } else {
        assert(pdistinct(m.drop_last()));
        assert(m.drop_last()[i] == m[i]);
        lemma_pget_update(m.drop_last(), i, v);
        assert(m2.drop_last() =~= m.drop_last().update(i, (m[i].0, v)));
        assert(m2.last() == m.last());
        assert(!(m.last().0.0@ == m[i].0.0@ && m.last().0.1@ == m[i].0.1@));
    }
    assert forall|a: Seq<char>, b: Seq<char>| #[trigger] pget(m2, a, b) == (if a == m[i].0.0@ && b
        == m[i].0.1@ {
        v
    } else {
        pget(m, a, b)
    }) by {
        assert(pget(m2, a, b) == if m2.last().0.0@ == a && m2.last().0.1@ == b {
            m2.last().1
        } else {
            pget(m2.drop_last(), a, b)
        });
        assert(pget(m, a, b) == if m.last().0.0@ == a && m.last().0.1@ == b {
            m.last().1
        } else {
            pget(m.drop_last(), a, b)
        });
    }
}

proof fn lemma_pget_push(m: Seq<((String, String), usize)>, e: ((String, String), usize))
    ensures
        forall|a: Seq<char>, b: Seq<char>| #[trigger]
            pget(m.push(e), a, b) == if a == e.0.0@ && b == e.0.1@ {
                e.1
            } else {
                pget(m, a, b)
            },
        pdistinct(m) && (forall|i: int|
            0 <= i < m.len() ==> !((#[trigger] m[i]).0.0@ == e.0.0@ && m[i].0.1@ == e.0.1@))
            ==> pdistinct(m.push(e)),
{
    assert(m.push(e).drop_last() =~= m);
    assert(m.push(e).last() == e);
    if pdistinct(m) && (forall|i: int|
        0 <= i < m.len() ==> !((#[trigger] m[i]).0.0@ == e.0.0@ && m[i].0.1@ == e.0.1@)) {
        assert forall|i: int, j: int| 0 <= i < j < m.push(e).len() implies !((#[trigger] m.push(
            e,
        )[i]).0.0@ == (#[trigger] m.push(e)[j]).0.0@ && m.push(e)[i].0.1@ == m.push(e)[j].0.1@) by {
            if j == m.len() {
                assert(m.push(e)[i] == m[i]);
            }
        }
    }
}

/// Finds the index of the entry with pair key `(w1, w2)`, if any.
fn pfind(m: &Vec<((String, String), usize)>, w1: &String, w2: &String) -> (r: Option<usize>)
    ensures
        match r {
            Some(i) => i < m@.len() && m@[i as int].0.0@ == w1@ && m@[i as int].0.1@ == w2@,
            None => forall|i: int|
                0 <= i < m@.len() ==> !((#[trigger] m@[i]).0.0@ == w1@ && m@[i].0.1@ == w2@),
        },
{
    let mut i: usize = 0;
    while i < m.len()
        invariant
            i <= m@.len(),
            forall|j: int| 0 <= j < i ==> !((#[trigger] m@[j]).0.0@ == w1@ && m@[j].0.1@ == w2@),
        decreases m@.len() - i,
    {
        if m[i].0.0.eq(w1) && m[i].0.1.eq(w2) {
            return Some(i);
        }
        i += 1;
    }
    None
}

/// Adds one to the count stored for the pair, creating the entry if absent.
fn pinc(m: &mut Vec<((String, String), usize)>, p: &(String, String))
    requires
        pdistinct(old(m)@),
        pget(old(m)@, p.0@, p.1@) < usize::MAX,
    ensures
        pdistinct(final(m)@),
        pget(final(m)@, p.0@, p.1@) == pget(old(m)@, p.0@, p.1@) + 1,
        forall|a: Seq<char>, b: Seq<char>|
            !(a == p.0@ && b == p.1@) ==> #[trigger] pget(final(m)@, a, b) == pget(old(m)@, a, b),
{
    let found = pfind(m, &p.0, &p.1);
    match found {
        Some(i) => {
            proof {
                lemma_pget_at_index(m@, i as int);
                lemma_pget_update(m@, i as int, (m@[i as int].1 + 1) as usize);
            }
            let c = m[i].1;
            let key = (m[i].0.0.clone(), m[i].0.1.clone());
            m.set(i, (key, c + 1));
            proof {
                assert(final(m)@ =~= old(m)@.update(i as int, (old(m)@[i as int].0, (c
                    + 1) as usize)));
            }
        },
        None => {
            proof {
                lemma_pget_absent(m@, p.0@, p.1@);
                lemma_pget_push(m@, (((p.0), (p.1)), 1));
            }
            m.push(((p.0.clone(), p.1.clone()), 1));
            proof {
                assert(final(m)@ =~= old(m)@.push((((p.0), (p.1)), 1)));
            }
        },
    }
}

/// Whether some row of the table has key `k`.
pub open spec fn rhas(m: Seq<(String, Vec<(String, usize)>)>, k: Seq<char>) -> bool {
    exists|i: int| 0 <= i < m.len() && (#[trigger] m[i]).0@ == k
}

/// Finds the index of the row with key `k`, if any.
fn rfind(m: &Vec<(String, Vec<(String, usize)>)>, k: &String) -> (r: Option<usize>)
    ensures
        match r {
            Some(i) => i < m@.len() && m@[i as int].0@ == k@,
            None => !rhas(m@, k@),
        },
{
    let mut i: usize = 0;
    while i < m.len()
        invariant
            i <= m@.len(),
            forall|j: int| 0 <= j < i ==> (#[trigger] m@[j]).0@ != k@,
        decreases m@.len() - i,
    {
        if m[i].0.eq(k) {
            return Some(i);
        }
        i += 1;
    }
    None
}

/// A bigram language model: pair counts over a normalized corpus, the number
/// of transitions out of every predecessor, and per predecessor a probability
/// row over the whole vocabulary, sorted by count descending.
pub struct Bigram {
    corpus: String,
    vocab: Vec<String>,
    bigram_counts: Vec<((String, String), usize)>,
    word_counts: Vec<(String, usize)>,
    probs: Vec<(String, Vec<(String, usize)>)>,
    pairs: Ghost<Seq<(Seq<char>, Seq<char>)>>,
}

impl Bigram {
    /// Internal consistency, stated against the (ghost) pair stream the model
    /// was trained on: counts match the stream, the vocabulary covers the two
    /// sentinels and every token ever seen, and every probability row is the
    /// full vocabulary with that context's transition counts, sorted, with
    /// total mass equal to the context's transition total.
    pub closed spec fn wf(&self) -> bool {
        &&& distinct_strs(self.vocab@)
        &&& contains_str(self.vocab@, start_tok())
        &&& contains_str(self.vocab@, end_tok())
        &&& forall|t: Seq<char>| #[trigger]
            contains_str(self.vocab@, t) <==> (t == start_tok() || t == end_tok() || occ_second(
                self.pairs@,
                t,
            ) > 0)
        &&& pdistinct(self.bigram_counts@)
        &&& forall|a: Seq<char>, b: Seq<char>| #[trigger]
            pget(self.bigram_counts@, a, b) == occ_pair(self.pairs@, a, b)
        &&& distinct_keys(self.word_counts@)
        &&& forall|a: Seq<char>| #[trigger]
            get_count(self.word_counts@, a) == occ_first(self.pairs@, a)
        &&& forall|a: Seq<char>| #[trigger]
            has_key(self.word_counts@, a) <==> occ_first(self.pairs@, a) > 0
        &&& self.probs@.len() == self.vocab@.len()
        &&& forall|i: int|
            0 <= i < self.probs@.len() ==> (#[trigger] self.probs@[i]).0@ == self.vocab@[i]@
        &&& forall|i: int|
            0 <= i < self.probs@.len() ==> {
                let row = (#[trigger] self.probs@[i]).1@;
                &&& distinct_keys(row)
                &&& sorted_desc(row)
                &&& row.len() == self.vocab@.len()
                &&& sum_counts(row) == occ_first(self.pairs@, self.probs@[i].0@)
                &&& forall|k: Seq<char>| #[trigger]
                    get_count(row, k) == occ_pair(self.pairs@, self.probs@[i].0@, k)
                &&& forall|j: int|
                    0 <= j < row.len() ==> contains_str(self.vocab@, (#[trigger] row[j]).0@)
                &&& forall|k: Seq<char>| contains_str(self.vocab@, k) ==> #[trigger] has_key(row, k)
            }
    }

    /// The normalized corpus the model was trained on.
    pub closed spec fn spec_corpus(&self) -> Seq<char> {
        self.corpus@
    }

    /// The (predecessor, token) pair stream the model counted.
    pub closed spec fn spec_pairs(&self) -> Seq<(Seq<char>, Seq<char>)> {
        self.pairs@
    }

    /// How often `w2` followed `w1` in training.
    pub open spec fn spec_pair_count(&self, w1: Seq<char>, w2: Seq<char>) -> int {
        occ_pair(self.spec_pairs(), w1, w2)
    }

    /// The number of transitions out of `w1` in training.
    pub open spec fn spec_ctx_total(&self, w1: Seq<char>) -> int {
        occ_first(self.spec_pairs(), w1)
    }

    /// Whether `w1` was ever observed as a predecessor.
    pub open spec fn spec_observed(&self, w1: Seq<char>) -> bool {
        self.spec_ctx_total(w1) > 0
    }

    /// Whether `t` is in the vocabulary.
    pub closed spec fn spec_vocab_contains(&self, t: Seq<char>) -> bool {
        contains_str(self.vocab@, t)
    }

    /// The vocabulary, one entry per distinct token.
    pub closed spec fn spec_vocab(&self) -> Seq<Seq<char>> {
        str_views(self.vocab@)
    }

    /// Trains a bigram model: normalizes the text, skips empty lines, walks
    /// every other line's tokens (with the start sentinel as the first
    /// predecessor and the end sentinel appended) counting transition pairs,
    /// then builds one full-vocabulary probability row per vocabulary token.
    pub fn construt(text: &str) -> (m: Bigram)
        ensures
            m.wf(),
            m.spec_corpus() == normalize_seq(text@),
            m.spec_pairs() == pair_stream(text@),
            forall|t: Seq<char>| #[trigger]
                m.spec_vocab_contains(t) <==> (t == start_tok() || t == end_tok() || occ_second(
                    pair_stream(text@),
                    t,
                ) > 0),
    {
        let (corpus, lines) = corpus_lines(text);
        let ghost gl = split_on(normalize_seq(text@), '\n');
        let pairs_vec = build_pairs(&lines, Ghost(gl));
        let ghost gp = pair_views(pairs_vec@);
        proof {
            assert(gp == pair_stream(text@));
        }
        let vocab = build_vocab(&pairs_vec, Ghost(gp));
        let mut bigram_counts: Vec<((String, String), usize)> = Vec::new();
        let mut word_counts: Vec<(String, usize)> = Vec::new();
        proof {
            assert(gp.take(0) =~= Seq::<(Seq<char>, Seq<char>)>::empty());
            assert forall|a: Seq<char>, b: Seq<char>| #[trigger]
                pget(bigram_counts@, a, b) == occ_pair(gp.take(0), a, b) by {}
            assert forall|a: Seq<char>| #[trigger]
                get_count(word_counts@, a) == occ_first(gp.take(0), a) by {}
        }
        let mut i: usize = 0;
        while i < pairs_vec.len()
            invariant
                i <= pairs_vec@.len(),
                gp == pair_views(pairs_vec@),
                pdistinct(bigram_counts@),
                distinct_keys(word_counts@),
                forall|a: Seq<char>, b: Seq<char>| #[trigger]
                    pget(bigram_counts@, a, b) == occ_pair(gp.take(i as int), a, b),
                forall|a: Seq<char>| #[trigger]
                    get_count(word_counts@, a) == occ_first(gp.take(i as int), a),
                forall|a: Seq<char>| #[trigger]
                    has_key(word_counts@, a) <==> occ_first(gp.take(i as int), a) > 0,
            decreases pairs_vec@.len() - i,
        {
            proof {
                assert(gp.take(i + 1).drop_last() =~= gp.take(i as int));
                assert(gp.take(i + 1).last() == gp[i as int]);
                assert(gp[i as int] == (pairs_vec@[i as int].0@, pairs_vec@[i as int].1@));
                lemma_occ_pair_le_first(gp.take(i as int), gp[i as int].0, gp[i as int].1);
                lemma_occ_first_le_len(gp.take(i as int), gp[i as int].0);
            }
            let p = &pairs_vec[i];
            pinc(&mut bigram_counts, p);
            inc_count(&mut word_counts, &p.0);
            proof {
                assert forall|a: Seq<char>, b: Seq<char>| #[trigger] occ_pair(gp.take(i + 1), a, b)
                    == occ_pair(gp.take(i as int), a, b) + (if a == gp[i as int].0 && b
                    == gp[i as int].1 {
                    1int
                } else {
                    0int
                }) by {}
                assert forall|a: Seq<char>| #[trigger] occ_first(gp.take(i + 1), a) == occ_first(
                    gp.take(i as int),
                    a,
                ) + (if a == gp[i as int].0 {
                    1int
                } else {
                    0int
                }) by {}
            }
            i += 1;
        }
        proof {
            assert(gp.take(pairs_vec@.len() as int) =~= gp);
        }
        let ghost vv = str_views(vocab@);
        proof {
            assert forall|i2: int, j2: int| 0 <= i2 < j2 < vv.len() implies vv[i2] != vv[j2] by {
                assert(vv[i2] == vocab@[i2]@);
                assert(vv[j2] == vocab@[j2]@);
            }
            assert forall|i2: int| 0 <= i2 < gp.len() implies vv.contains(
                (#[trigger] gp[i2]).1,
            ) by {
                lemma_occ_second_present(gp, i2);
                assert(contains_str(vocab@, gp[i2].1));
                let w = choose|w: int| 0 <= w < vocab@.len() && (#[trigger] vocab@[w])@ == gp[i2].1;
                assert(vv[w] == gp[i2].1);
            }
        }
        let mut probs: Vec<(String, Vec<(String, usize)>)> = Vec::new();
        let mut vi: usize = 0;
        while vi < vocab.len()
            invariant
                vi <= vocab@.len(),
                vv == str_views(vocab@),
                distinct_strs(vocab@),
                distinct_views(vv),
                forall|i2: int| 0 <= i2 < gp.len() ==> vv.contains((#[trigger] gp[i2]).1),
                forall|t: Seq<char>| #[trigger]
                    contains_str(vocab@, t) <==> (t == start_tok() || t == end_tok() || occ_second(
                        gp,
                        t,
                    ) > 0),
                pdistinct(bigram_counts@),
                forall|a: Seq<char>, b: Seq<char>| #[trigger]
                    pget(bigram_counts@, a, b) == occ_pair(gp, a, b),
                probs@.len() == vi,
                forall|i2: int| 0 <= i2 < vi ==> (#[trigger] probs@[i2]).0@ == vocab@[i2]@,
                forall|i2: int|
                    0 <= i2 < vi ==> {
                        let row = (#[trigger] probs@[i2]).1@;
                        &&& distinct_keys(row)
                        &&& sorted_desc(row)
                        &&& row.len() == vocab@.len()
                        &&& sum_counts(row) == occ_first(gp, probs@[i2].0@)
                        &&& forall|k: Seq<char>| #[trigger]
                            get_count(row, k) == occ_pair(gp, probs@[i2].0@, k)
                        &&& forall|j2: int|
                            0 <= j2 < row.len() ==> contains_str(vocab@, (#[trigger] row[j2]).0@)
                        &&& forall|k: Seq<char>|
                            contains_str(vocab@, k) ==> #[trigger] has_key(row, k)
                    },
            decreases vocab@.len() - vi,
        {
            let w1 = &vocab[vi];
            let mut row: Vec<(String, usize)> = Vec::new();
            proof {
                assert(vv.take(0) =~= Seq::<Seq<char>>::empty());
            }
            let mut j: usize = 0;
            while j < vocab.len()
                invariant
                    j <= vocab@.len(),
                    vv == str_views(vocab@),
                    distinct_strs(vocab@),
                    w1@ == vocab@[vi as int]@,
                    vi < vocab@.len(),
                    pdistinct(bigram_counts@),
                    forall|a: Seq<char>, b: Seq<char>| #[trigger]
                        pget(bigram_counts@, a, b) == occ_pair(gp, a, b),
                    row@.len() == j,
                    forall|j2: int|
                        0 <= j2 < j ==> (#[trigger] row@[j2]).0@ == vocab@[j2]@ && row@[j2].1
                            == occ_pair(gp, w1@, vocab@[j2]@),
                    sum_counts(row@) == sum_pair_over(gp, vv.take(j as int), w1@),
                decreases vocab@.len() - j,
            {
                let c = match pfind(&bigram_counts, w1, &vocab[j]) {
                    Some(ci) => {
                        proof {
                            lemma_pget_at_index(bigram_counts@, ci as int);
                        }
                        bigram_counts[ci].1
                    },
                    None => {
                        proof {
                            lemma_pget_absent(bigram_counts@, w1@, vocab@[j as int]@);
                        }
                        0
                    },
                };
                let ghost before = row@;
                proof {
                    lemma_get_push(before, (vocab@[j as int], c));
                }
                row.push((vocab[j].clone(), c));
                proof {
                    assert(row@ =~= before.push((vocab@[j as int], c)));
                    assert(vv.take(j + 1).drop_last() =~= vv.take(j as int));
                    assert(vv.take(j + 1).last() == vv[j as int]);
                    assert(vv[j as int] == vocab@[j as int]@);
                }
                j += 1;
            }
            proof {
                assert(vv.take(vocab@.len() as int) =~= vv);
                lemma_sum_pair_total(gp, vv, w1@);
                assert(distinct_keys(row@)) by {
                    assert forall|a: int, b: int| 0 <= a < b < row@.len() implies (
                    #[trigger] row@[a]).0@ != (#[trigger] row@[b]).0@ by {
                        assert(row@[a].0@ == vocab@[a]@);
                        assert(row@[b].0@ == vocab@[b]@);
                    }
                }
                assert forall|k: Seq<char>| #[trigger] get_count(row@, k) == occ_pair(
                    gp,
                    w1@,
                    k,
                ) by {
                    if contains_str(vocab@, k) {
                        let idx = choose|idx: int|
                            0 <= idx < vocab@.len() && (#[trigger] vocab@[idx])@ == k;
                        lemma_get_at_index(row@, idx);
                    } else {
                        lemma_occ_second_nonneg(gp, k);
                        lemma_occ_pair_le_second(gp, w1@, k);
                        lemma_get_props(row@, k);
                        if has_key(row@, k) {
                            let idx = choose|idx: int|
                                0 <= idx < row@.len() && (#[trigger] row@[idx]).0@ == k;
                            assert(contains_str(vocab@, vocab@[idx]@));
                            assert(false);
                        }
                    }
                }
            }
            let sorted_row = sort_desc(&row);
            let ghost before_probs = probs@;
            probs.push((w1.clone(), sorted_row));
            proof {
                assert(probs@.drop_last() =~= before_probs);
                let nv = probs@.len() - 1;
                assert(probs@[nv].0@ == vocab@[nv as int]@);
                let rowv = probs@[nv].1@;
                assert(rowv == sorted_row@);
                assert(distinct_keys(rowv));
                assert(sorted_desc(rowv));
                assert(rowv.len() == vocab@.len());
                assert(sum_counts(rowv) == occ_first(gp, probs@[nv].0@));
                assert forall|k: Seq<char>| contains_str(vocab@, k) implies #[trigger] has_key(
                    rowv,
                    k,
                ) by {
                    let idx = choose|idx: int|
                        0 <= idx < vocab@.len() && (#[trigger] vocab@[idx])@ == k;
                    lemma_get_at_index(row@, idx);
                    assert(has_key(row@, row@[idx].0@));
                }
                assert forall|j2: int| 0 <= j2 < rowv.len() implies contains_str(
                    vocab@,
                    (#[trigger] rowv[j2]).0@,
                ) by {
                    lemma_get_at_index(rowv, j2);
                    assert(has_key(rowv, rowv[j2].0@));
                    assert(has_key(row@, rowv[j2].0@));
                    lemma_get_props(row@, rowv[j2].0@);
                    let idx = choose|idx: int|
                        0 <= idx < row@.len() && (#[trigger] row@[idx]).0@ == rowv[j2].0@;
                    assert(row@[idx].0@ == vocab@[idx]@);
                    assert(contains_str(vocab@, vocab@[idx]@));
                }
                assert(forall|k: Seq<char>| #[trigger] get_count(rowv, k) == occ_pair(
                    gp,
                    probs@[nv].0@,
                    k,
                ));
                assert(forall|i2: int| 0 <= i2 < nv ==> probs@[i2] == before_probs[i2]);
            }
            vi += 1;
        }
        Bigram { corpus, vocab, bigram_counts, word_counts, probs, pairs: Ghost(gp) }
    }

    /// The number of distinct vocabulary entries (sentinels included).
    pub fn vocab_len(&self) -> (n: usize)
        ensures
            n == self.spec_vocab().len(),
    {
        self.vocab.len()
    }

    /// The normalized corpus the model was trained on.
    pub fn corpus(&self) -> (r: &String)
        ensures
            r@ == self.spec_corpus(),
    {
        &self.corpus
    }

    /// The conditional probability of `curr_word` after `prev_word`, as an
    /// exact ratio: the pair count over the predecessor's transition total.
    /// A predecessor never observed gives exactly zero (`0 / 1`).
    pub fn prob(&self, prev_word: &str, curr_word: &str) -> (r: Ratio)
        requires
            self.wf(),
        ensures
            self.spec_observed(prev_word@) ==> r.num == self.spec_pair_count(
                prev_word@,
                curr_word@,
            ) && r.den == self.spec_ctx_total(prev_word@),
            !self.spec_observed(prev_word@) ==> r.num == 0 && r.den == 1,
            r.num <= r.den,
            r.den > 0,
    {
        proof {
            lemma_occ_pair_le_first(self.pairs@, prev_word@, curr_word@);
        }
        let pk = String::from_str(prev_word);
        let ck = String::from_str(curr_word);
        let found = find_key(&self.word_counts, &pk);
        match found {
            None => {
                proof {
                    lemma_get_props(self.word_counts@, prev_word@);
                }
                Ratio { num: 0, den: 1 }
            },
            Some(i) => {
                proof {
                    lemma_get_at_index(self.word_counts@, i as int);
                }
                let den = self.word_counts[i].1;
                let num = match pfind(&self.bigram_counts, &pk, &ck) {
                    Some(ci) => {
                        proof {
                            lemma_pget_at_index(self.bigram_counts@, ci as int);
                        }
                        self.bigram_counts[ci].1
                    },
                    None => {
                        proof {
                            lemma_pget_absent(self.bigram_counts@, prev_word@, curr_word@);
                        }
                        0
                    },
                };
                Ratio { num, den }
            },
        }
    }

    /// Draws a random sentence: starting from the start sentinel, up to 100
    /// draws each pick one token by the inverse-CDF walk of `selection` over
    /// the probability row of the current predecessor (no token is skipped);
    /// the selected token becomes the next predecessor, the end sentinel ends
    /// the sentence, and after 100 draws the end sentinel is forced.  The
    /// result is always the start sentinel, then at most 100 drawn tokens
    /// each preceded by one space — every one a vocabulary member and none
    /// the end sentinel — closed by one space and the end sentinel.
    pub fn random_sentence(&self) -> (res: String)
        requires
            self.wf(),
        ensures
            starts_with(res@, start_tok()),
            ends_with(res@, end_tok()),
            exists|toks: Seq<Seq<char>>|
                #[trigger] sentence_form(res@, toks) && toks.len() <= 100 && (forall|i: int|
                    0 <= i < toks.len() ==> self.spec_vocab_contains(#[trigger] toks[i]) && toks[i]
                        != end_tok()),
    {
        let en = end_token();
        let mut res = start_token();
        let mut prev = start_token();
        let ghost mut toks: Seq<Seq<char>> = Seq::empty();
        proof {
            reveal_strlit(" ");
            assert(spaced(toks) =~= Seq::<char>::empty());
            assert(res@ =~= start_tok() + spaced(toks));
        }
        let mut d: usize = 0;
        while d < 100
            invariant
                self.wf(),
                en@ == end_tok(),
                res@ == start_tok() + spaced(toks),
                toks.len() <= d,
                d <= 100,
                forall|i: int|
                    0 <= i < toks.len() ==> self.spec_vocab_contains(#[trigger] toks[i]) && toks[i]
                        != end_tok(),
                contains_str(self.vocab@, prev@),
            decreases 100 - d,
        {
            let found = rfind(&self.probs, &prev);
            match found {
                None => {
                    proof {
                        let idx = choose|idx: int|
                            0 <= idx < self.vocab@.len() && (#[trigger] self.vocab@[idx])@
                                == prev@;
                        assert(self.probs@[idx].0@ == prev@);
                        assert(false);
                    }
                },
                Some(ri) => {
                    let wci = find_key(&self.word_counts, &prev);
                    let total_ctx = match wci {
                        Some(i2) => {
                            proof {
                                lemma_get_at_index(self.word_counts@, i2 as int);
                            }
                            self.word_counts[i2].1
                        },
                        None => {
                            proof {
                                lemma_get_props(self.word_counts@, prev@);
                                lemma_occ_first_le_len(self.pairs@, prev@);
                            }
                            0
                        },
                    };
                    proof {
                        assert(total_ctx == occ_first(self.pairs@, prev@));
                        assert(total_ctx == sum_counts(self.probs@[ri as int].1@));
                    }
                    if total_ctx > 0 {
                        let val = draw_below(total_ctx);
                        let row = &self.probs[ri].1;
                        let sel = select_token(row, val, None);
                        match sel {
                            Some(j) => {
                                let w = &row[j].0;
                                proof {
                                    assert(contains_str(self.vocab@, row@[j as int].0@));
                                }
                                res.append(" ");
                                res.append(w.as_str());
                                proof {
                                    reveal_strlit(" ");
                                }
                                if w.eq(&en) {
                                    proof {
                                        assert(res@ =~= start_tok() + spaced(toks) + seq![' ']
                                            + end_tok());
                                        assert(sentence_form(res@, toks));
                                        assert(res@.subrange(0, start_tok().len() as int)
                                            =~= start_tok());
                                        assert(res@.subrange(
                                            res@.len() - end_tok().len(),
                                            res@.len() as int,
                                        ) =~= end_tok());
                                    }
                                    return res;
                                }
                                prev = w.clone();
                                proof {
                                    let t0 = toks;
                                    toks = toks.push(prev@);
                                    assert(toks.drop_last() =~= t0);
                                    assert(toks.last() == prev@);
                                    assert(res@ =~= start_tok() + spaced(toks));
                                }
                            },
                            None => {
                                // no candidate qualified for this draw; nothing is appended
                            },
                        }
                    }
                },
            }
            d += 1;
        }
        res.append(" ");
        res.append(en.as_str());
        proof {
            reveal_strlit(" ");
            assert(res@ =~= start_tok() + spaced(toks) + seq![' '] + end_tok());
            assert(sentence_form(res@, toks));
            assert(res@.subrange(0, start_tok().len() as int) =~= start_tok());
            assert(res@.subrange(res@.len() - end_tok().len(), res@.len() as int) =~= end_tok());
        }
        res
    }

    /// The per-pair probability terms of held-out text: the held-out corpus
    /// is normalized, wrapped and tokenized exactly as in training, and every
    /// (predecessor, token) pair of the resulting stream is scored with its
    /// trained conditional probability.  Perplexity is `exp(-1/N * sum of
    /// ln(term))` over these N ratios, which a caller computes in floating
    /// point.
    pub fn perplexity(&self, text: &str) -> (r: Vec<Ratio>)
        requires
            self.wf(),
        ensures
            r@.len() == pair_stream(text@).len(),
            forall|i: int|
                0 <= i < r@.len() ==> {
                    let p = pair_stream(text@)[i];
                    &&& self.spec_observed(p.0) ==> (#[trigger] r@[i]).num == self.spec_pair_count(
                        p.0,
                        p.1,
                    ) && r@[i].den == self.spec_ctx_total(p.0)
                    &&& !self.spec_observed(p.0) ==> r@[i].num == 0 && r@[i].den == 1
                },
    {
        let (_corpus, lines) = corpus_lines(text);
        let ghost gl = split_on(normalize_seq(text@), '\n');
        let pairs_vec = build_pairs(&lines, Ghost(gl));
        let ghost gp = pair_views(pairs_vec@);
        proof {
            assert(gp == pair_stream(text@));
        }
        let mut out: Vec<Ratio> = Vec::new();
        let mut i: usize = 0;
        while i < pairs_vec.len()
            invariant
                self.wf(),
                i <= pairs_vec@.len(),
                gp == pair_views(pairs_vec@),
                out@.len() == i,
                forall|k: int|
                    0 <= k < i ==> {
                        let p = gp[k];
                        &&& self.spec_observed(p.0) ==> (#[trigger] out@[k]).num
                            == self.spec_pair_count(p.0, p.1) && out@[k].den == self.spec_ctx_total(
                            p.0,
                        )
                        &&& !self.spec_observed(p.0) ==> out@[k].num == 0 && out@[k].den == 1
                    },
            decreases pairs_vec@.len() - i,
        {
            proof {
                assert(gp[i as int] == (pairs_vec@[i as int].0@, pairs_vec@[i as int].1@));
            }
            let t = self.prob(pairs_vec[i].0.as_str(), pairs_vec[i].1.as_str());
            out.push(t);
            i += 1;
        }
        out
    }
}

/// The model's transition count out of `w1` against an arbitrary list of
/// candidate followers, summed.
pub open spec fn ctx_mass(m: &Bigram, w1: Seq<char>, vs: Seq<Seq<char>>) -> int
    decreases vs.len(),
{
    if vs.len() == 0 {
        0
    } else {
        ctx_mass(m, w1, vs.drop_last()) + m.spec_pair_count(w1, vs.last())
    }
}

proof fn lemma_ctx_mass_eq(m: &Bigram, w1: Seq<char>, vs: Seq<Seq<char>>)
    ensures
        ctx_mass(m, w1, vs) == sum_pair_over(m.spec_pairs(), vs, w1),
    decreases vs.len(),
{
    if vs.len() > 0 {
        lemma_ctx_mass_eq(m, w1, vs.drop_last());
    }
}

/// Conditional probability mass: for any context `w1`, the pair counts
/// summed over the whole vocabulary equal the context's transition total.
/// So for an observed context the conditional probabilities over the
/// vocabulary sum to one, and for an unobserved one they are all zero.
pub proof fn lemma_bigram_row_mass(m: &Bigram, w1: Seq<char>)
    requires
        m.wf(),
    ensures
        ctx_mass(m, w1, m.spec_vocab()) == m.spec_ctx_total(w1),
{
    let vv = m.spec_vocab();
    assert forall|i2: int, j2: int| 0 <= i2 < j2 < vv.len() implies vv[i2] != vv[j2] by {
        assert(vv[i2] == m.vocab@[i2]@);
        assert(vv[j2] == m.vocab@[j2]@);
    }
    assert forall|i2: int| 0 <= i2 < m.spec_pairs().len() implies vv.contains(
        (#[trigger] m.spec_pairs()[i2]).1,
    ) by {
        lemma_occ_second_present(m.spec_pairs(), i2);
        assert(contains_str(m.vocab@, m.spec_pairs()[i2].1));
        let w = choose|w: int|
            0 <= w < m.vocab@.len() && (#[trigger] m.vocab@[w])@ == m.spec_pairs()[i2].1;
        assert(vv[w] == m.spec_pairs()[i2].1);
    }
    lemma_sum_pair_total(m.spec_pairs(), vv, w1);
    lemma_ctx_mass_eq(m, w1, vv);
}

} // verus!
