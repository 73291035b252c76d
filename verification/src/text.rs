//! Text normalization and splitting.
//!
//! Normalization strips the six punctuation characters `. , " ' ? !` and then
//! lowercases the whole string through `str::to_lowercase`, whose result is
//! named by the uninterpreted `lower_of`.  Splitting is the naive
//! split-on-separator: consecutive separators produce empty pieces, which are
//! kept (empty tokens are a documented quirk of the models built on top).

use vstd::prelude::*;

verus! {

/// The characters that normalization removes.
pub open spec fn is_punct(c: char) -> bool {
    c == '.' || c == ',' || c == '"' || c == '\'' || c == '?' || c == '!'
}

/// The text with every punctuation character removed, all other characters
/// kept in order.
pub open spec fn strip_punct(s: Seq<char>) -> Seq<char>
    decreases s.len(),
{
    if s.len() == 0 {
        Seq::empty()
    } else {
        let rest = strip_punct(s.drop_last());
        if is_punct(s.last()) {
            rest
        } else {
            rest.push(s.last())
        }
    }
}

/// What `str::to_lowercase` returns: the Unicode lowercasing of the text, a
/// function of the characters alone.
pub uninterp spec fn lower_of(s: Seq<char>) -> Seq<char>;

/// What normalization produces: punctuation removed, then the whole string
/// lowercased.
pub open spec fn normalize_seq(s: Seq<char>) -> Seq<char> {
    lower_of(strip_punct(s))
}

/// Splitting on a separator character, keeping empty pieces: the result of
/// splitting the empty sequence is one empty piece.
pub open spec fn split_on(s: Seq<char>, sep: char) -> Seq<Seq<char>>
    decreases s.len(),
{
    if s.len() == 0 {
        seq![Seq::<char>::empty()]
    } else {
        let rest = split_on(s.drop_last(), sep);
        if s.last() == sep {
            rest.push(Seq::empty())
        } else {
            rest.update(rest.len() - 1, rest.last().push(s.last()))
        }
    }
}

pub proof fn lemma_split_on_len(s: Seq<char>, sep: char)
    ensures
        split_on(s, sep).len() >= 1,
    decreases s.len(),
{
    if s.len() > 0 {
        lemma_split_on_len(s.drop_last(), sep);
    }
}

/// The sentence-start sentinel, as a sequence of characters.
pub open spec fn start_tok() -> Seq<char> {
    seq!['<', 's', '>']
}

/// The sentence-end sentinel, as a sequence of characters.
pub open spec fn end_tok() -> Seq<char> {
    seq!['<', '/', 's', '>']
}

/// Tokens rendered with one space before each.
pub open spec fn spaced(toks: Seq<Seq<char>>) -> Seq<char>
    decreases toks.len(),
{
    if toks.len() == 0 {
        Seq::empty()
    } else {
        spaced(toks.drop_last()) + seq![' '] + toks.last()
    }
}

/// The shape of a sampled sentence: the start sentinel, then the drawn
/// tokens each preceded by one space, then one space and the end sentinel.
pub open spec fn sentence_form(s: Seq<char>, toks: Seq<Seq<char>>) -> bool {
    s == start_tok() + spaced(toks) + seq![' '] + end_tok()
}

pub open spec fn starts_with(s: Seq<char>, pre: Seq<char>) -> bool {
    pre.len() <= s.len() && s.subrange(0, pre.len() as int) == pre
}

pub open spec fn ends_with(s: Seq<char>, suf: Seq<char>) -> bool {
    suf.len() <= s.len() && s.subrange(s.len() - suf.len(), s.len() as int) == suf
}

/// The sentence-start sentinel `<s>`.
pub fn start_token() -> (r: String)
    ensures
        r@ == start_tok(),
{
    let r = String::from_str("<s>");
    proof {
        reveal_strlit("<s>");
        assert(r@ =~= start_tok());
    }
    r
}

/// The sentence-end sentinel `</s>`.
pub fn end_token() -> (r: String)
    ensures
        r@ == end_tok(),
{
    let r = String::from_str("</s>");
    proof {
        reveal_strlit("</s>");
        assert(r@ =~= end_tok());
    }
    r
}

/// Relies on String::push: appends the one character at the end.
#[verifier::external_body]
pub(crate) fn push_char(s: &mut String, c: char)
    ensures
        final(s)@ == old(s)@.push(c),
{
    s.push(c);
}

fn punct(c: char) -> (r: bool)
    ensures
        r == is_punct(c),
{
    c == '.' || c == ',' || c == '"' || c == '\'' || c == '?' || c == '!'
}

/// Relies on str::to_lowercase: the Unicode lowercasing of the text, a
/// function of the characters alone, named by `lower_of`.
#[verifier::external_body]
fn lowercase(s: &str) -> (r: String)
    ensures
        r@ == lower_of(s@),
{
    s.to_lowercase()
}

/// Normalizes text: removes every occurrence of `. , " ' ? !`, keeping all
/// other characters in order, then lowercases the whole string.  Pure; no
/// error conditions.
pub fn clean_text(text: String) -> (r: String)
    ensures
        r@ == normalize_seq(text@),
{
    let s = text.as_str();
    let n = s.unicode_len();
    let mut out = String::new();
    let mut i: usize = 0;
    while i < n
        invariant
            n == s@.len(),
            s@ == text@,
            i <= n,
            out@ == strip_punct(s@.take(i as int)),
        decreases n - i,
    {
        let c = s.get_char(i);
        proof {
            assert(s@.take(i + 1).drop_last() =~= s@.take(i as int));
            assert(s@.take(i + 1).last() == s@[i as int]);
        }
        if !punct(c) {
            push_char(&mut out, c);
        }
        i += 1;
    }
    proof {
        assert(s@.take(n as int) =~= s@);
    }
    lowercase(out.as_str())
}

/// A sequence is free of punctuation when stripping would remove nothing.
pub open spec fn punct_free(s: Seq<char>) -> bool {
    forall|i: int| 0 <= i < s.len() ==> !is_punct(#[trigger] s[i])
}

pub proof fn lemma_strip_no_punct(s: Seq<char>)
    ensures
        punct_free(strip_punct(s)),
    decreases s.len(),
{
    if s.len() > 0 {
        lemma_strip_no_punct(s.drop_last());
    }
}

pub proof fn lemma_strip_fixed(s: Seq<char>)
    requires
        punct_free(s),
    ensures
        strip_punct(s) == s,
    decreases s.len(),
{
    if s.len() > 0 {
        assert(punct_free(s.drop_last()));
        lemma_strip_fixed(s.drop_last());
        assert(strip_punct(s) =~= s);
    }
}

/// The punctuation-stripping stage of normalization is idempotent: a second
/// pass over already-stripped text removes nothing.  (Idempotence of the
/// whole normalization would also need that lowercasing neither introduces
/// punctuation nor changes under a second application, which the named
/// `lower_of` does not state.)
pub proof fn lemma_strip_idempotent(s: Seq<char>)
    ensures
        strip_punct(strip_punct(s)) == strip_punct(s),
{
    lemma_strip_no_punct(s);
    lemma_strip_fixed(strip_punct(s));
}

/// Turns a string into the vector of its characters.
pub(crate) fn to_char_vec(s: &str) -> (r: Vec<char>)
    ensures
        r@ == s@,
{
    let n = s.unicode_len();
    let mut out: Vec<char> = Vec::new();
    let mut i: usize = 0;
    while i < n
        invariant
            n == s@.len(),
            i <= n,
            out@ == s@.take(i as int),
        decreases n - i,
    {
        let c = s.get_char(i);
        out.push(c);
        proof {
            assert(s@.take(i + 1) =~= s@.take(i as int).push(s@[i as int]));
        }
        i += 1;
    }
    proof {
        assert(s@.take(n as int) =~= s@);
    }
    out
}

/// Turns a vector of characters back into a string.
pub(crate) fn chars_to_string(v: &Vec<char>) -> (r: String)
    ensures
        r@ == v@,
{
    let mut out = String::new();
    let mut i: usize = 0;
    while i < v.len()
        invariant
            i <= v@.len(),
            out@ == v@.take(i as int),
        decreases v@.len() - i,
    {
        push_char(&mut out, v[i]);
        proof {
            assert(v@.take(i + 1) =~= v@.take(i as int).push(v@[i as int]));
        }
        i += 1;
    }
    proof {
        assert(v@.take(v@.len() as int) =~= v@);
    }
    out
}

/// Splits a character vector on a separator, keeping empty pieces.
pub(crate) fn split_chars(v: &Vec<char>, sep: char) -> (r: Vec<Vec<char>>)
    ensures
        r@.len() == split_on(v@, sep).len(),
        forall|k: int| 0 <= k < r@.len() ==> #[trigger] r@[k]@ == split_on(v@, sep)[k],
{
    let ghost target = split_on(v@, sep);
    let mut out: Vec<Vec<char>> = Vec::new();
    let mut cur: Vec<char> = Vec::new();
    let mut i: usize = 0;
    while i < v.len()
        invariant
            i <= v@.len(),
            split_on(v@.take(i as int), sep).len() == out@.len() + 1,
            forall|k: int|
                0 <= k < out@.len() ==> #[trigger] out@[k]@ == split_on(v@.take(i as int), sep)[k],
            cur@ == split_on(v@.take(i as int), sep).last(),
        decreases v@.len() - i,
    {
        proof {
            assert(v@.take(i + 1).drop_last() =~= v@.take(i as int));
            assert(v@.take(i + 1).last() == v@[i as int]);
            lemma_split_on_len(v@.take(i as int), sep);
        }
        let c = v[i];
        if c == sep {
            out.push(cur);
            cur = Vec::new();
        } else {
            cur.push(c);
        }
        i += 1;
    }
    proof {
        assert(v@.take(v@.len() as int) =~= v@);
        lemma_split_on_len(v@, sep);
    }
    out.push(cur);
    out
}

} // verus!
