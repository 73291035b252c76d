//! Association lists from tokens to counts.
//!
//! Counts are held in vectors of `(String, usize)` pairs with pairwise
//! distinct keys.  The spec-level reading is `get_count` (0 for an absent
//! key), and the lemmas here say how lookups, sums and key sets evolve under
//! the operations the models use: bumping one entry, appending a fresh entry,
//! and inserting into a sorted table.

use vstd::prelude::*;

verus! {

/// The count stored for key `k`; 0 when `k` is absent.
pub open spec fn get_count(m: Seq<(String, usize)>, k: Seq<char>) -> usize
    decreases m.len(),
{
    if m.len() == 0 {
        0
    } else if m.last().0@ == k {
        m.last().1
    } else {
        get_count(m.drop_last(), k)
    }
}

/// Whether some entry has key `k`.
pub open spec fn has_key(m: Seq<(String, usize)>, k: Seq<char>) -> bool
    decreases m.len(),
{
    if m.len() == 0 {
        false
    } else {
        m.last().0@ == k || has_key(m.drop_last(), k)
    }
}

/// All keys are pairwise distinct.
pub open spec fn distinct_keys(m: Seq<(String, usize)>) -> bool {
    forall|i: int, j: int|
        #![trigger m[i], m[j]]
        0 <= i < j < m.len() ==> m[i].0@ != m[j].0@
}

/// The sum of all stored counts.
pub open spec fn sum_counts(m: Seq<(String, usize)>) -> int
    decreases m.len(),
{
    if m.len() == 0 {
        0
    } else {
        sum_counts(m.drop_last()) + m.last().1
    }
}

/// Counts are sorted in descending order.
pub open spec fn sorted_desc(m: Seq<(String, usize)>) -> bool {
    forall|i: int, j: int|
        #![trigger m[i], m[j]]
        0 <= i <= j < m.len() ==> m[i].1 >= m[j].1
}

pub proof fn lemma_get_props(m: Seq<(String, usize)>, k: Seq<char>)
    ensures
        has_key(m, k) <==> exists|i: int| 0 <= i < m.len() && #[trigger] m[i].0@ == k,
        !has_key(m, k) ==> get_count(m, k) == 0,
    decreases m.len(),
{
    if m.len() > 0 {
        lemma_get_props(m.drop_last(), k);
        if m.last().0@ == k {
            assert(m[m.len() - 1].0@ == k);
        }
        if exists|i: int| 0 <= i < m.len() && #[trigger] m[i].0@ == k {
            let i = choose|i: int| 0 <= i < m.len() && #[trigger] m[i].0@ == k;
            if i < m.len() - 1 {
                assert(m.drop_last()[i].0@ == k);
            }
        }
    }
}

pub proof fn lemma_get_at_index(m: Seq<(String, usize)>, i: int)
    requires
        distinct_keys(m),
        0 <= i < m.len(),
    ensures
        has_key(m, m[i].0@),
        get_count(m, m[i].0@) == m[i].1,
    decreases m.len(),
{
    if i == m.len() - 1 {
    } else {
        assert(distinct_keys(m.drop_last()));
        assert(m.drop_last()[i] == m[i]);
        lemma_get_at_index(m.drop_last(), i);
        assert(m.last().0@ != m[i].0@);
    }
}

/// No single count exceeds the sum of all counts.
pub proof fn lemma_get_le_sum(m: Seq<(String, usize)>, k: Seq<char>)
    ensures
        get_count(m, k) <= sum_counts(m),
    decreases m.len(),
{
    if m.len() > 0 {
        lemma_get_le_sum(m.drop_last(), k);
        lemma_sum_nonneg(m.drop_last());
    }
}

pub proof fn lemma_sum_nonneg(m: Seq<(String, usize)>)
    ensures
        sum_counts(m) >= 0,
    decreases m.len(),
{
    if m.len() > 0 {
        lemma_sum_nonneg(m.drop_last());
    }
}

pub proof fn lemma_get_update(m: Seq<(String, usize)>, i: int, v: usize)
    requires
        distinct_keys(m),
        0 <= i < m.len(),
    ensures
        distinct_keys(m.update(i, (m[i].0, v))),
        forall|k: Seq<char>| #[trigger]
            get_count(m.update(i, (m[i].0, v)), k) == if k == m[i].0@ {
                v
            } else {
                get_count(m, k)
            },
        forall|k: Seq<char>| #[trigger]
            has_key(m.update(i, (m[i].0, v)), k) <==> has_key(m, k),
        sum_counts(m.update(i, (m[i].0, v))) == sum_counts(m) - m[i].1 + v,
    decreases m.len(),
{
    let m2 = m.update(i, (m[i].0, v));
    if i == m.len() - 1 {
        assert(m2.drop_last() =~= m.drop_last());
        assert(m2.last() == (m[i].0, v));
    } else {
        assert(distinct_keys(m.drop_last()));
        assert(m.drop_last()[i] == m[i]);
        lemma_get_update(m.drop_last(), i, v);
        assert(m2.drop_last() =~= m.drop_last().update(i, (m[i].0, v)));
        assert(m2.last() == m.last());
        assert(m.last().0@ != m[i].0@);
    }
    assert forall|k: Seq<char>| #[trigger] get_count(m2, k) == (if k == m[i].0@ {
        v
    } else {
        get_count(m, k)
    }) by {
        assert(get_count(m2, k) == if m2.last().0@ == k {
            m2.last().1
        } else {
            get_count(m2.drop_last(), k)
        });
        assert(get_count(m, k) == if m.last().0@ == k {
            m.last().1
        } else {
            get_count(m.drop_last(), k)
        });
    }
    assert forall|k: Seq<char>| #[trigger] has_key(m2, k) <==> has_key(m, k) by {
        assert(has_key(m2, k) == (m2.last().0@ == k || has_key(m2.drop_last(), k)));
        assert(has_key(m, k) == (m.last().0@ == k || has_key(m.drop_last(), k)));
    }
}

pub proof fn lemma_get_push(m: Seq<(String, usize)>, e: (String, usize))
    ensures
        forall|k: Seq<char>| #[trigger]
            get_count(m.push(e), k) == if k == e.0@ {
                e.1
            } else {
                get_count(m, k)
            },
        forall|k: Seq<char>| #[trigger] has_key(m.push(e), k) <==> (has_key(m, k) || k == e.0@),
        sum_counts(m.push(e)) == sum_counts(m) + e.1,
        distinct_keys(m) && !has_key(m, e.0@) ==> distinct_keys(m.push(e)),
{
    assert(m.push(e).drop_last() =~= m);
    assert(m.push(e).last() == e);
    if distinct_keys(m) && !has_key(m, e.0@) {
        lemma_get_props(m, e.0@);
        assert forall|i: int, j: int| 0 <= i < j < m.push(e).len() implies #[trigger] m.push(e)[i].0@
            != #[trigger] m.push(e)[j].0@ by {
            if j == m.len() {
                assert(m.push(e)[i] == m[i]);
            }
        }
    }
}

pub proof fn lemma_get_concat(a: Seq<(String, usize)>, b: Seq<(String, usize)>)
    ensures
        forall|k: Seq<char>| #[trigger]
            get_count(a + b, k) == if has_key(b, k) {
                get_count(b, k)
            } else {
                get_count(a, k)
            },
        forall|k: Seq<char>| #[trigger] has_key(a + b, k) <==> (has_key(a, k) || has_key(b, k)),
        sum_counts(a + b) == sum_counts(a) + sum_counts(b),
    decreases b.len(),
{
    if b.len() == 0 {
        assert(a + b =~= a);
        assert forall|k: Seq<char>| #[trigger] get_count(a + b, k) == (if has_key(b, k) {
            get_count(b, k)
        } else {
            get_count(a, k)
        }) by {
            assert(!has_key(b, k));
        }
        assert forall|k: Seq<char>| #[trigger] has_key(a + b, k) <==> (has_key(a, k) || has_key(
            b,
            k,
        )) by {
            assert(!has_key(b, k));
        }
    } else {
        lemma_get_concat(a, b.drop_last());
        assert((a + b).drop_last() =~= a + b.drop_last());
        assert((a + b).last() == b.last());
        assert forall|k: Seq<char>| #[trigger] get_count(a + b, k) == (if has_key(b, k) {
            get_count(b, k)
        } else {
            get_count(a, k)
        }) by {
            assert(get_count(a + b, k) == if (a + b).last().0@ == k {
                (a + b).last().1
            } else {
                get_count((a + b).drop_last(), k)
            });
            assert(get_count(b, k) == if b.last().0@ == k {
                b.last().1
            } else {
                get_count(b.drop_last(), k)
            });
            assert(has_key(b, k) == (b.last().0@ == k || has_key(b.drop_last(), k)));
        }
        assert forall|k: Seq<char>| #[trigger] has_key(a + b, k) <==> (has_key(a, k) || has_key(
            b,
            k,
        )) by {
            assert(has_key(a + b, k) == ((a + b).last().0@ == k || has_key(
                (a + b).drop_last(),
                k,
            )));
            assert(has_key(b, k) == (b.last().0@ == k || has_key(b.drop_last(), k)));
        }
    }
}

pub proof fn lemma_insert(m: Seq<(String, usize)>, pos: int, e: (String, usize))
    requires
        distinct_keys(m),
        !has_key(m, e.0@),
        0 <= pos <= m.len(),
    ensures
        m.insert(pos, e).len() == m.len() + 1,
        distinct_keys(m.insert(pos, e)),
        forall|k: Seq<char>| #[trigger]
            get_count(m.insert(pos, e), k) == if k == e.0@ {
                e.1
            } else {
                get_count(m, k)
            },
        forall|k: Seq<char>| #[trigger]
            has_key(m.insert(pos, e), k) <==> (has_key(m, k) || k == e.0@),
        sum_counts(m.insert(pos, e)) == sum_counts(m) + e.1,
{
    let a = m.subrange(0, pos);
    let b = m.subrange(pos, m.len() as int);
    assert(m =~= a + b);
    lemma_get_concat(a, b);
    lemma_get_push(a, e);
    lemma_get_concat(a.push(e), b);
    assert(m.insert(pos, e) == a.push(e) + b);
    lemma_get_props(m, e.0@);
    m.insert_ensures(pos, e);
    assert forall|i: int, j: int| 0 <= i < j < m.insert(pos, e).len() implies #[trigger] m.insert(
        pos,
        e,
    )[i].0@ != #[trigger] m.insert(pos, e)[j].0@ by {
        let ins = m.insert(pos, e);
        if i == pos {
            assert(ins[j] == m[j - 1]);
        } else if j == pos {
            assert(ins[i] == m[i]);
        } else {
            let i0: int = if i < pos { i } else { i - 1 };
            let j0: int = if j < pos { j } else { j - 1 };
            assert(ins[i] == m[i0]);
            assert(ins[j] == m[j0]);
        }
    }
}

pub proof fn lemma_sum_take(m: Seq<(String, usize)>, j: int)
    requires
        0 <= j <= m.len(),
    ensures
        sum_counts(m.take(j)) + sum_counts(m.skip(j)) == sum_counts(m),
        sum_counts(m.take(j)) <= sum_counts(m),
        j < m.len() ==> sum_counts(m.take(j + 1)) == sum_counts(m.take(j)) + m[j].1,
{
    assert(m =~= m.take(j) + m.skip(j));
    lemma_get_concat(m.take(j), m.skip(j));
    lemma_sum_nonneg(m.skip(j));
    if j < m.len() {
        assert(m.take(j + 1) =~= m.take(j).push(m[j]));
        lemma_get_push(m.take(j), m[j]);
    }
}

/// The keys of the table, in order.
pub open spec fn keys_of(m: Seq<(String, usize)>) -> Seq<Seq<char>> {
    m.map_values(|e: (String, usize)| e.0@)
}

/// The total count the table assigns to a list of keys.
pub open spec fn mass_of(m: Seq<(String, usize)>, ks: Seq<Seq<char>>) -> int
    decreases ks.len(),
{
    if ks.len() == 0 {
        0
    } else {
        mass_of(m, ks.drop_last()) + get_count(m, ks.last())
    }
}

pub proof fn lemma_mass_congruent(
    m1: Seq<(String, usize)>,
    m2: Seq<(String, usize)>,
    ks: Seq<Seq<char>>,
)
    requires
        forall|i: int| 0 <= i < ks.len() ==> get_count(m1, #[trigger] ks[i]) == get_count(m2, ks[i]),
    ensures
        mass_of(m1, ks) == mass_of(m2, ks),
    decreases ks.len(),
{
    if ks.len() > 0 {
        lemma_mass_congruent(m1, m2, ks.drop_last());
        assert(ks[ks.len() - 1] == ks.last());
    }
}

/// Summing the table's own count over its own (distinct) keys gives the sum
/// of all stored counts: the table distributes its whole mass over its keys.
pub proof fn lemma_mass_eq_sum(m: Seq<(String, usize)>)
    requires
        distinct_keys(m),
    ensures
        mass_of(m, keys_of(m)) == sum_counts(m),
    decreases m.len(),
{
    if m.len() > 0 {
        let md = m.drop_last();
        assert(distinct_keys(md));
        lemma_mass_eq_sum(md);
        assert(keys_of(m).drop_last() =~= keys_of(md));
        assert(keys_of(m).last() == m.last().0@);
        lemma_get_at_index(m, m.len() - 1);
        assert forall|i: int| 0 <= i < keys_of(md).len() implies get_count(
            m,
            #[trigger] keys_of(md)[i],
        ) == get_count(md, keys_of(md)[i]) by {
            assert(keys_of(md)[i] == md[i].0@);
            assert(m.last().0@ != md[i].0@);
        }
        lemma_mass_congruent(m, md, keys_of(md));
    }
}

/// Finds the index of the entry with key `k`, if any.
pub(crate) fn find_key(m: &Vec<(String, usize)>, k: &String) -> (r: Option<usize>)
    ensures
        match r {
            Some(i) => i < m@.len() && m@[i as int].0@ == k@,
            None => forall|i: int| 0 <= i < m@.len() ==> (#[trigger] m@[i]).0@ != k@,
        },
{
    let mut i: usize = 0;
    while i < m.len()
        invariant
            i <= m@.len(),
            forall|j: int| 0 <= j < i ==> (#[trigger] m@[j]).0@ != k@,
        decreases m@.len() - i,
    {
        if m[i].0.eq(k) {
            return Some(i);
        }
        i += 1;
    }
    None
}

/// Adds one to the count stored for `t`, creating the entry if absent.
pub(crate) fn inc_count(m: &mut Vec<(String, usize)>, t: &String)
    requires
        distinct_keys(old(m)@),
        get_count(old(m)@, t@) < usize::MAX,
    ensures
        distinct_keys(final(m)@),
        get_count(final(m)@, t@) == get_count(old(m)@, t@) + 1,
        forall|k: Seq<char>| k != t@ ==> #[trigger] get_count(final(m)@, k) == get_count(old(m)@, k),
        forall|k: Seq<char>| #[trigger] has_key(final(m)@, k) <==> (has_key(old(m)@, k) || k == t@),
        sum_counts(final(m)@) == sum_counts(old(m)@) + 1,
{
    let r = find_key(m, t);
    match r {
        Some(i) => {
            proof {
                lemma_get_at_index(m@, i as int);
            }
            let c = m[i].1;
            let key = m[i].0.clone();
            proof {
                lemma_get_update(m@, i as int, (c + 1) as usize);
            }
            m.set(i, (key, c + 1));
        },
        None => {
            proof {
                lemma_get_props(m@, t@);
                lemma_get_push(m@, ((*t), 1));
            }
            m.push((t.clone(), 1));
            proof {
                assert(final(m)@ =~= old(m)@.push(((*t), 1)));
            }
        },
    }
}

/// Copies a count table into a new one sorted by count, descending, keeping
/// ties in their original order.
pub(crate) fn sort_desc(src: &Vec<(String, usize)>) -> (r: Vec<(String, usize)>)
    requires
        distinct_keys(src@),
    ensures
        distinct_keys(r@),
        sorted_desc(r@),
        r@.len() == src@.len(),
        forall|k: Seq<char>| #[trigger] get_count(r@, k) == get_count(src@, k),
        forall|k: Seq<char>| #[trigger] has_key(r@, k) <==> has_key(src@, k),
        sum_counts(r@) == sum_counts(src@),
{
    let mut out: Vec<(String, usize)> = Vec::new();
    let mut i: usize = 0;
    while i < src.len()
        invariant
            i <= src@.len(),
            distinct_keys(src@),
            distinct_keys(out@),
            sorted_desc(out@),
            out@.len() == i,
            forall|k: Seq<char>| #[trigger]
                get_count(out@, k) == get_count(src@.take(i as int), k),
            forall|k: Seq<char>| #[trigger]
                has_key(out@, k) <==> has_key(src@.take(i as int), k),
            sum_counts(out@) == sum_counts(src@.take(i as int)),
        decreases src@.len() - i,
    {
        let e = (src[i].0.clone(), src[i].1);
        let mut p: usize = 0;
        while p < out.len() && out[p].1 >= e.1
            invariant
                p <= out@.len(),
                forall|q: int| 0 <= q < p ==> (#[trigger] out@[q]).1 >= e.1,
        decreases out@.len() - p,
        {
            p += 1;
        }
        proof {
            assert(src@.take(i + 1).drop_last() =~= src@.take(i as int));
            assert(src@.take(i + 1).last() == src@[i as int]);
            assert forall|ii: int| 0 <= ii < i implies (#[trigger] src@.take(i as int)[ii]).0@
                != src@[i as int].0@ by {
                assert(src@.take(i as int)[ii] == src@[ii]);
            }
            lemma_get_props(src@.take(i as int), src@[i as int].0@);
            assert(!has_key(out@, e.0@));
            lemma_insert(out@, p as int, e);
            out@.insert_ensures(p as int, e);
        }
        let ghost old_out = out@;
        out.insert(p, e);
        proof {
            assert(sorted_desc(out@)) by {
                assert forall|ii: int, jj: int| 0 <= ii <= jj < out@.len() implies (
                #[trigger] out@[ii]).1 >= (#[trigger] out@[jj]).1 by {
                    if ii == p {
                        if jj > p {
                            assert(out@[jj] == old_out[jj - 1]);
                            assert(old_out[p as int].1 < e.1 || p == old_out.len());
                        }
                    } else if jj == p {
                        assert(out@[ii] == old_out[ii]);
                    } else {
                        let i0: int = if ii < p { ii } else { ii - 1 };
                        let j0: int = if jj < p { jj } else { jj - 1 };
                        assert(out@[ii] == old_out[i0]);
                        assert(out@[jj] == old_out[j0]);
                    }
                }
            }
        }
        i += 1;
    }
    proof {
        assert(src@.take(src@.len() as int) =~= src@);
    }
    out
}

} // verus!
