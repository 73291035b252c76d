//! The token streams a corpus gives rise to.
//!
//! A corpus is normalized, split into lines on `'\n'`, and every non-empty
//! line is read as its space-separated tokens wrapped in the start and end
//! sentinels.  The unigram model counts the resulting flat token stream; the
//! bigram model counts the stream of consecutive (predecessor, token) pairs,
//! where the predecessor of a line's first token is the start sentinel and
//! the end sentinel closes every line.

use vstd::prelude::*;

use crate::text::{
    chars_to_string, clean_text, end_tok, end_token, normalize_seq, split_chars, split_on,
    start_tok, start_token, to_char_vec,
};

verus! {

/// The views of a vector of strings.
pub open spec fn str_views(s: Seq<String>) -> Seq<Seq<char>> {
    s.map_values(|x: String| x@)
}

/// The views of a vector of string pairs.
pub open spec fn pair_views(s: Seq<(String, String)>) -> Seq<(Seq<char>, Seq<char>)> {
    s.map_values(|p: (String, String)| (p.0@, p.1@))
}

/// The tokens of one line: naive split on single spaces, empty tokens kept.
pub open spec fn line_tokens(l: Seq<char>) -> Seq<Seq<char>> {
    split_on(l, ' ')
}

/// One non-empty line's contribution to the unigram token stream.
pub open spec fn uni_line_stream(l: Seq<char>) -> Seq<Seq<char>> {
    seq![start_tok()] + line_tokens(l) + seq![end_tok()]
}

/// The unigram token stream of a sequence of lines; empty lines are skipped.
pub open spec fn uni_stream_lines(lines: Seq<Seq<char>>) -> Seq<Seq<char>>
    decreases lines.len(),
{
    if lines.len() == 0 {
        Seq::empty()
    } else {
        uni_stream_lines(lines.drop_last()) + (if lines.last().len() == 0 {
            Seq::empty()
        } else {
            uni_line_stream(lines.last())
        })
    }
}

/// The unigram token stream of a whole raw corpus.
pub open spec fn corpus_stream(text: Seq<char>) -> Seq<Seq<char>> {
    uni_stream_lines(split_on(normalize_seq(text), '\n'))
}

/// How often token `t` occurs in a token stream.
pub open spec fn occ(s: Seq<Seq<char>>, t: Seq<char>) -> int
    decreases s.len(),
{
    if s.len() == 0 {
        0
    } else {
        occ(s.drop_last(), t) + if s.last() == t {
            1int
        } else {
            0int
        }
    }
}

pub proof fn lemma_occ_le_len(s: Seq<Seq<char>>, t: Seq<char>)
    ensures
        0 <= occ(s, t) <= s.len(),
    decreases s.len(),
{
    if s.len() > 0 {
        lemma_occ_le_len(s.drop_last(), t);
    }
}

/// Every token of a stream occurs in it at least once.
pub proof fn lemma_occ_present(s: Seq<Seq<char>>, i: int)
    requires
        0 <= i < s.len(),
    ensures
        occ(s, s[i]) >= 1,
    decreases s.len(),
{
    lemma_occ_le_len(s.drop_last(), s[i]);
    if i < s.len() - 1 {
        assert(s.drop_last()[i] == s[i]);
        lemma_occ_present(s.drop_last(), i);
    }
}

/// The padded token list a line's pairs are read from: its tokens, closed by
/// the end sentinel.
pub open spec fn line_pair_tokens(l: Seq<char>) -> Seq<Seq<char>> {
    line_tokens(l).push(end_tok())
}

/// One non-empty line's (predecessor, token) pairs.
pub open spec fn line_pairs(l: Seq<char>) -> Seq<(Seq<char>, Seq<char>)> {
    let ts = line_pair_tokens(l);
    Seq::new(
        ts.len(),
        |i: int|
            (
                if i == 0 {
                    start_tok()
                } else {
                    ts[i - 1]
                },
                ts[i],
            ),
    )
}

/// The pair stream of a sequence of lines; empty lines are skipped.
pub open spec fn pair_stream_lines(lines: Seq<Seq<char>>) -> Seq<(Seq<char>, Seq<char>)>
    decreases lines.len(),
{
    if lines.len() == 0 {
        Seq::empty()
    } else {
        pair_stream_lines(lines.drop_last()) + (if lines.last().len() == 0 {
            Seq::empty()
        } else {
            line_pairs(lines.last())
        })
    }
}

/// The (predecessor, token) pair stream of a whole raw corpus.
pub open spec fn pair_stream(text: Seq<char>) -> Seq<(Seq<char>, Seq<char>)> {
    pair_stream_lines(split_on(normalize_seq(text), '\n'))
}

/// How often the pair `(w1, w2)` occurs.
pub open spec fn occ_pair(ps: Seq<(Seq<char>, Seq<char>)>, w1: Seq<char>, w2: Seq<char>) -> int
    decreases ps.len(),
{
    if ps.len() == 0 {
        0
    } else {
        occ_pair(ps.drop_last(), w1, w2) + if ps.last() == (w1, w2) {
            1int
        } else {
            0int
        }
    }
}

/// How often `w1` occurs as a predecessor.
pub open spec fn occ_first(ps: Seq<(Seq<char>, Seq<char>)>, w1: Seq<char>) -> int
    decreases ps.len(),
{
    if ps.len() == 0 {
        0
    } else {
        occ_first(ps.drop_last(), w1) + if ps.last().0 == w1 {
            1int
        } else {
            0int
        }
    }
}

/// How often `t` occurs as the second component of a pair.
pub open spec fn occ_second(ps: Seq<(Seq<char>, Seq<char>)>, t: Seq<char>) -> int
    decreases ps.len(),
{
    if ps.len() == 0 {
        0
    } else {
        occ_second(ps.drop_last(), t) + if ps.last().1 == t {
            1int
        } else {
            0int
        }
    }
}

pub proof fn lemma_occ_first_le_len(ps: Seq<(Seq<char>, Seq<char>)>, w1: Seq<char>)
    ensures
        0 <= occ_first(ps, w1) <= ps.len(),
    decreases ps.len(),
{
    if ps.len() > 0 {
        lemma_occ_first_le_len(ps.drop_last(), w1);
    }
}

pub proof fn lemma_occ_pair_le_first(ps: Seq<(Seq<char>, Seq<char>)>, w1: Seq<char>, w2: Seq<char>)
    ensures
        0 <= occ_pair(ps, w1, w2) <= occ_first(ps, w1),
    decreases ps.len(),
{
    if ps.len() > 0 {
        lemma_occ_pair_le_first(ps.drop_last(), w1, w2);
    }
}

pub proof fn lemma_occ_pair_le_second(ps: Seq<(Seq<char>, Seq<char>)>, w1: Seq<char>, w2: Seq<char>)
    ensures
        0 <= occ_pair(ps, w1, w2) <= occ_second(ps, w2),
    decreases ps.len(),
{
    if ps.len() > 0 {
        lemma_occ_pair_le_second(ps.drop_last(), w1, w2);
    }
}

pub proof fn lemma_occ_second_present(ps: Seq<(Seq<char>, Seq<char>)>, i: int)
    requires
        0 <= i < ps.len(),
    ensures
        occ_second(ps, ps[i].1) >= 1,
    decreases ps.len(),
{
    if i < ps.len() - 1 {
        assert(ps.drop_last()[i] == ps[i]);
        lemma_occ_second_present(ps.drop_last(), i);
        assert(occ_second(ps, ps[i].1) >= occ_second(ps.drop_last(), ps[i].1));
    } else {
        lemma_occ_second_nonneg(ps.drop_last(), ps[i].1);
    }
}

pub proof fn lemma_occ_second_nonneg(ps: Seq<(Seq<char>, Seq<char>)>, t: Seq<char>)
    ensures
        occ_second(ps, t) >= 0,
    decreases ps.len(),
{
    if ps.len() > 0 {
        lemma_occ_second_nonneg(ps.drop_last(), t);
    }
}

/// Whether some string of the vector views to `t`.
pub open spec fn contains_str(vs: Seq<String>, t: Seq<char>) -> bool {
    exists|i: int| 0 <= i < vs.len() && (#[trigger] vs[i])@ == t
}

/// All strings of the vector are pairwise distinct.
pub open spec fn distinct_strs(vs: Seq<String>) -> bool {
    forall|i: int, j: int|
        #![trigger vs[i], vs[j]]
        0 <= i < j < vs.len() ==> vs[i]@ != vs[j]@
}

pub proof fn lemma_contains_push(vs: Seq<String>, x: String, t: Seq<char>)
    ensures
        contains_str(vs.push(x), t) <==> (contains_str(vs, t) || x@ == t),
{
    if contains_str(vs, t) {
        let i = choose|i: int| 0 <= i < vs.len() && (#[trigger] vs[i])@ == t;
        assert(vs.push(x)[i]@ == t);
    }
    if x@ == t {
        assert(vs.push(x)[vs.len() as int]@ == t);
    }
    if contains_str(vs.push(x), t) {
        let i = choose|i: int| 0 <= i < vs.push(x).len() && (#[trigger] vs.push(x)[i])@ == t;
        if i < vs.len() {
            assert(vs[i]@ == t);
        }
    }
}

/// How often `t` occurs in a list of token views.
pub open spec fn count_in(vs: Seq<Seq<char>>, t: Seq<char>) -> int
    decreases vs.len(),
{
    if vs.len() == 0 {
        0
    } else {
        count_in(vs.drop_last(), t) + if vs.last() == t {
            1int
        } else {
            0int
        }
    }
}

/// All views are pairwise distinct.
pub open spec fn distinct_views(vs: Seq<Seq<char>>) -> bool {
    forall|i: int, j: int|
        #![trigger vs[i], vs[j]]
        0 <= i < j < vs.len() ==> vs[i] != vs[j]
}

pub proof fn lemma_count_in(vs: Seq<Seq<char>>, t: Seq<char>)
    ensures
        0 <= count_in(vs, t),
        !vs.contains(t) ==> count_in(vs, t) == 0,
        distinct_views(vs) && vs.contains(t) ==> count_in(vs, t) == 1,
    decreases vs.len(),
{
    if vs.len() > 0 {
        assert(distinct_views(vs) ==> distinct_views(vs.drop_last()));
        lemma_count_in(vs.drop_last(), t);
        if vs.contains(t) {
            let i = choose|i: int| 0 <= i < vs.len() && vs[i] == t;
            if i < vs.len() - 1 {
                assert(vs.drop_last()[i] == t);
                assert(vs.drop_last().contains(t));
            }
        }
        if vs.drop_last().contains(t) {
            let i = choose|i: int| 0 <= i < vs.drop_last().len() && vs.drop_last()[i] == t;
            assert(vs[i] == t);
            assert(vs.contains(t));
            if distinct_views(vs) && vs.last() == t {
                assert(vs[i] == vs[vs.len() - 1]);
                assert(false);
            }
        }
    }
}

/// The pair count of `w1` against each element of a list of candidate
/// followers, summed.
pub open spec fn sum_pair_over(
    ps: Seq<(Seq<char>, Seq<char>)>,
    vs: Seq<Seq<char>>,
    w1: Seq<char>,
) -> int
    decreases vs.len(),
{
    if vs.len() == 0 {
        0
    } else {
        sum_pair_over(ps, vs.drop_last(), w1) + occ_pair(ps, w1, vs.last())
    }
}

pub proof fn lemma_sum_pair_push(
    ps: Seq<(Seq<char>, Seq<char>)>,
    p: (Seq<char>, Seq<char>),
    vs: Seq<Seq<char>>,
    w1: Seq<char>,
)
    ensures
        sum_pair_over(ps.push(p), vs, w1) == sum_pair_over(ps, vs, w1) + (if p.0 == w1 {
            count_in(vs, p.1)
        } else {
            0int
        }),
    decreases vs.len(),
{
    if vs.len() > 0 {
        lemma_sum_pair_push(ps, p, vs.drop_last(), w1);
        assert(ps.push(p).drop_last() =~= ps);
        assert(ps.push(p).last() == p);
    }
}

/// Summing the pair counts of `w1` over any duplicate-free list of candidates
/// that covers every token that ever follows gives exactly the number of
/// times `w1` occurs as a predecessor: a context's transition counts
/// distribute its whole mass over the vocabulary.
pub proof fn lemma_sum_pair_total(
    ps: Seq<(Seq<char>, Seq<char>)>,
    vs: Seq<Seq<char>>,
    w1: Seq<char>,
)
    requires
        distinct_views(vs),
        forall|i: int| 0 <= i < ps.len() ==> vs.contains((#[trigger] ps[i]).1),
    ensures
        sum_pair_over(ps, vs, w1) == occ_first(ps, w1),
    decreases ps.len(),
{
    if ps.len() == 0 {
        lemma_sum_pair_zero(ps, vs, w1);
    } else {
        let pd = ps.drop_last();
        let p = ps.last();
        assert forall|i: int| 0 <= i < pd.len() implies vs.contains((#[trigger] pd[i]).1) by {
            assert(pd[i] == ps[i]);
        }
        lemma_sum_pair_total(pd, vs, w1);
        lemma_sum_pair_push(pd, p, vs, w1);
        assert(pd.push(p) =~= ps);
        assert(ps[ps.len() - 1] == p);
        assert(vs.contains(p.1));
        lemma_count_in(vs, p.1);
    }
}

pub proof fn lemma_sum_pair_zero(
    ps: Seq<(Seq<char>, Seq<char>)>,
    vs: Seq<Seq<char>>,
    w1: Seq<char>,
)
    requires
        ps.len() == 0,
    ensures
        sum_pair_over(ps, vs, w1) == 0,
    decreases vs.len(),
{
    if vs.len() > 0 {
        lemma_sum_pair_zero(ps, vs.drop_last(), w1);
    }
}

/// Normalizes a corpus and splits it into lines.
pub(crate) fn corpus_lines(text: &str) -> (r: (String, Vec<Vec<char>>))
    ensures
        r.0@ == normalize_seq(text@),
        r.1@.len() == split_on(normalize_seq(text@), '\n').len(),
        forall|k: int|
            0 <= k < r.1@.len() ==> (#[trigger] r.1@[k])@ == split_on(normalize_seq(text@), '\n')[k],
{
    let corpus = clean_text(String::from_str(text));
    let chars = to_char_vec(corpus.as_str());
    let lines = split_chars(&chars, '\n');
    (corpus, lines)
}

/// Builds the flat unigram token stream of the given lines.
pub(crate) fn build_uni_stream(lines: &Vec<Vec<char>>, Ghost(gl): Ghost<Seq<Seq<char>>>) -> (r: Vec<
    String,
>)
    requires
        lines@.len() == gl.len(),
        forall|k: int| 0 <= k < gl.len() ==> (#[trigger] lines@[k])@ == gl[k],
    ensures
        str_views(r@) == uni_stream_lines(gl),
{
    let mut out: Vec<String> = Vec::new();
    let mut i: usize = 0;
    while i < lines.len()
        invariant
            i <= lines@.len(),
            lines@.len() == gl.len(),
            forall|k: int| 0 <= k < gl.len() ==> (#[trigger] lines@[k])@ == gl[k],
            str_views(out@) == uni_stream_lines(gl.take(i as int)),
        decreases lines@.len() - i,
    {
        proof {
            assert(gl.take(i + 1).drop_last() =~= gl.take(i as int));
            assert(gl.take(i + 1).last() == gl[i as int]);
        }
        let line = &lines[i];
        if line.len() > 0 {
            let ghost before = out@;
            out.push(start_token());
            proof {
                assert(str_views(out@) =~= str_views(before).push(start_tok()));
            }
            let toks = split_chars(line, ' ');
            let ghost lt = line_tokens(gl[i as int]);
            let mut j: usize = 0;
            while j < toks.len()
                invariant
                    j <= toks@.len(),
                    toks@.len() == lt.len(),
                    forall|k: int| 0 <= k < lt.len() ==> (#[trigger] toks@[k])@ == lt[k],
                    str_views(out@) == uni_stream_lines(gl.take(i as int)) + seq![start_tok()]
                        + lt.take(j as int),
                decreases toks@.len() - j,
            {
                let ghost before = out@;
                let t = chars_to_string(&toks[j]);
                out.push(t);
                proof {
                    assert(str_views(out@) =~= str_views(before).push(lt[j as int]));
                    assert(lt.take(j + 1) =~= lt.take(j as int).push(lt[j as int]));
                    assert(str_views(out@) =~= uni_stream_lines(gl.take(i as int)) + seq![
                        start_tok(),
                    ] + lt.take(j + 1));
                }
                j += 1;
            }
            let ghost before = out@;
            out.push(end_token());
            proof {
                assert(lt.take(lt.len() as int) =~= lt);
                assert(str_views(out@) =~= str_views(before).push(end_tok()));
                assert(str_views(out@) =~= uni_stream_lines(gl.take(i as int)) + uni_line_stream(
                    gl[i as int],
                ));
            }
        } else {
            proof {
                assert(uni_stream_lines(gl.take(i + 1)) =~= uni_stream_lines(gl.take(i as int)));
            }
        }
        i += 1;
    }
    proof {
        assert(gl.take(gl.len() as int) =~= gl);
    }
    out
}

/// Builds the (predecessor, token) pair stream of the given lines.
pub(crate) fn build_pairs(lines: &Vec<Vec<char>>, Ghost(gl): Ghost<Seq<Seq<char>>>) -> (r: Vec<
    (String, String),
>)
    requires
        lines@.len() == gl.len(),
        forall|k: int| 0 <= k < gl.len() ==> (#[trigger] lines@[k])@ == gl[k],
    ensures
        pair_views(r@) == pair_stream_lines(gl),
{
    let mut out: Vec<(String, String)> = Vec::new();
    let mut i: usize = 0;
    while i < lines.len()
        invariant
            i <= lines@.len(),
            lines@.len() == gl.len(),
            forall|k: int| 0 <= k < gl.len() ==> (#[trigger] lines@[k])@ == gl[k],
            pair_views(out@) == pair_stream_lines(gl.take(i as int)),
        decreases lines@.len() - i,
    {
        proof {
            assert(gl.take(i + 1).drop_last() =~= gl.take(i as int));
            assert(gl.take(i + 1).last() == gl[i as int]);
        }
        let line = &lines[i];
        if line.len() > 0 {
            let toks = split_chars(line, ' ');
            let ghost lt = line_tokens(gl[i as int]);
            let ghost lp = line_pairs(gl[i as int]);
            let mut prev = start_token();
            let mut j: usize = 0;
            while j < toks.len()
                invariant
                    j <= toks@.len(),
                    toks@.len() == lt.len(),
                    lp == line_pairs(gl[i as int]),
                    lt == line_tokens(gl[i as int]),
                    forall|k: int| 0 <= k < lt.len() ==> (#[trigger] toks@[k])@ == lt[k],
                    pair_views(out@) == pair_stream_lines(gl.take(i as int)) + lp.take(j as int),
                    prev@ == if j == 0 {
                        start_tok()
                    } else {
                        lt[j - 1]
                    },
                decreases toks@.len() - j,
            {
                let ghost before = out@;
                let t = chars_to_string(&toks[j]);
                let cur = t.clone();
                out.push((prev, t));
                prev = cur;
                proof {
                    assert(lp[j as int] == (if j == 0 {
                        start_tok()
                    } else {
                        lt[j - 1]
                    }, lt[j as int]));
                    assert(pair_views(out@) =~= pair_views(before).push(lp[j as int]));
                    assert(lp.take(j + 1) =~= lp.take(j as int).push(lp[j as int]));
                }
                j += 1;
            }
            let ghost before = out@;
            out.push((prev, end_token()));
            proof {
                assert(lp[lt.len() as int] == (if lt.len() == 0 {
                    start_tok()
                } else {
                    lt[lt.len() - 1]
                }, end_tok()));
                assert(pair_views(out@) =~= pair_views(before).push(lp[lt.len() as int]));
                assert(lp.take(lp.len() as int) =~= lp);
                assert(lp.take(lt.len() as int + 1) =~= lp.take(lt.len() as int).push(
                    lp[lt.len() as int],
                ));
                assert(pair_views(out@) =~= pair_stream_lines(gl.take(i as int)) + lp);
            }
        } else {
            proof {
                assert(pair_stream_lines(gl.take(i + 1)) =~= pair_stream_lines(gl.take(i as int)));
            }
        }
        i += 1;
    }
    proof {
        assert(gl.take(gl.len() as int) =~= gl);
    }
    out
}

/// Whether the vector holds a string equal to `t`.
pub(crate) fn contains_token(vs: &Vec<String>, t: &String) -> (r: bool)
    ensures
        r == contains_str(vs@, t@),
{
    let mut i: usize = 0;
    while i < vs.len()
        invariant
            i <= vs@.len(),
            forall|j: int| 0 <= j < i ==> (#[trigger] vs@[j])@ != t@,
        decreases vs@.len() - i,
    {
        if vs[i].eq(t) {
            return true;
        }
        i += 1;
    }
    false
}

/// Collects the vocabulary a pair stream gives rise to: both sentinels and
/// every token that ever occurs as the second component of a pair, each once,
/// in order of first occurrence.
pub(crate) fn build_vocab(
    pairs: &Vec<(String, String)>,
    Ghost(gp): Ghost<Seq<(Seq<char>, Seq<char>)>>,
) -> (r: Vec<String>)
    requires
        pairs@.len() == gp.len(),
        forall|k: int|
            0 <= k < gp.len() ==> ((#[trigger] pairs@[k]).0@, pairs@[k].1@) == gp[k],
    ensures
        distinct_strs(r@),
        contains_str(r@, start_tok()),
        contains_str(r@, end_tok()),
        forall|t: Seq<char>| #[trigger]
            contains_str(r@, t) <==> (t == start_tok() || t == end_tok() || occ_second(gp, t) > 0),
{
    let mut out: Vec<String> = Vec::new();
    let s = start_token();
    let e = end_token();
    proof {
        assert(!contains_str(out@, s@));
        lemma_contains_push(out@, s, e@);
        lemma_contains_push(out@, s, s@);
    }
    let ghost v0 = out@;
    out.push(s);
    proof {
        lemma_contains_push(out@, e, e@);
        assert forall|t: Seq<char>| #[trigger] contains_str(out@.push(e), t) <==> (t == start_tok()
            || t == end_tok()) by {
            lemma_contains_push(out@, e, t);
            lemma_contains_push(v0, out@.last(), t);
            assert(v0.push(out@.last()) =~= out@);
        }
    }
    out.push(e);
    let mut i: usize = 0;
    while i < pairs.len()
        invariant
            i <= pairs@.len(),
            pairs@.len() == gp.len(),
            forall|k: int|
                0 <= k < gp.len() ==> ((#[trigger] pairs@[k]).0@, pairs@[k].1@) == gp[k],
            distinct_strs(out@),
            contains_str(out@, start_tok()),
            contains_str(out@, end_tok()),
            forall|t: Seq<char>| #[trigger]
                contains_str(out@, t) <==> (t == start_tok() || t == end_tok() || occ_second(
                    gp.take(i as int),
                    t,
                ) > 0),
        decreases pairs@.len() - i,
    {
        proof {
            assert(gp.take(i + 1).drop_last() =~= gp.take(i as int));
            assert(gp.take(i + 1).last() == gp[i as int]);
            assert forall|t: Seq<char>| occ_second(gp.take(i as int), t) >= 0 by {
                lemma_occ_second_nonneg(gp.take(i as int), t);
            }
        }
        let w = &pairs[i].1;
        if !contains_token(&out, w) {
            let ghost before = out@;
            out.push(w.clone());
            proof {
                assert forall|t: Seq<char>| #[trigger] contains_str(out@, t) <==> (contains_str(
                    before,
                    t,
                ) || t == w@) by {
                    lemma_contains_push(before, out@.last(), t);
                    assert(before.push(out@.last()) =~= out@);
                }
                assert forall|ii: int, jj: int| 0 <= ii < jj < out@.len() implies (
                #[trigger] out@[ii])@ != (#[trigger] out@[jj])@ by {
                    if jj == out@.len() - 1 {
                        assert(!contains_str(before, w@));
                        assert(out@[ii] == before[ii]);
                    } else {
                        assert(out@[ii] == before[ii]);
                        assert(out@[jj] == before[jj]);
                    }
                }
            }
        }
        i += 1;
    }
    proof {
        assert(gp.take(gp.len() as int) =~= gp);
    }
    out
}

} // verus!
