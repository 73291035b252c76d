//! One draw of the samplers: inverse-CDF selection over a count table.

use vstd::prelude::*;

use crate::assoc::{lemma_sum_take, sum_counts};

verus! {

/// The state of the inverse-CDF walk from entry `j` on with running sum
/// `sum`: the walk selects the first entry whose count added to the running
/// sum exceeds the drawn value.  An entry whose token equals `skip` is
/// passed over without its count being added; an entry that does not qualify
/// adds its count.  `None` when no entry qualifies.
pub open spec fn select_idx(
    t: Seq<(String, usize)>,
    j: int,
    sum: int,
    val: int,
    skip: Option<Seq<char>>,
) -> Option<int>
    decreases t.len() - j,
{
    if j < 0 || j >= t.len() {
        None
    } else if sum + t[j].1 > val {
        if skip == Some(t[j].0@) {
            select_idx(t, j + 1, sum, val, skip)
        } else {
            Some(j)
        }
    } else {
        select_idx(t, j + 1, sum + t[j].1, val, skip)
    }
}

/// The index the walk selects on the whole table for the drawn value `val`.
pub open spec fn selection(t: Seq<(String, usize)>, val: int, skip: Option<Seq<char>>) -> Option<
    int,
> {
    select_idx(t, 0, 0, val, skip)
}

/// The view of the optional skip token.
pub open spec fn spec_skip(skip: Option<&String>) -> Option<Seq<char>> {
    match skip {
        Some(k) => Some(k@),
        None => None,
    }
}

/// Walks the table by inverse CDF for one drawn value and returns the
/// selected index: exactly `selection(t@, val, skip)`.
pub fn select_token(t: &Vec<(String, usize)>, val: usize, skip: Option<&String>) -> (r: Option<
    usize,
>)
    requires
        sum_counts(t@) <= usize::MAX,
    ensures
        match r {
            Some(j) => j < t@.len() && selection(t@, val as int, spec_skip(skip)) == Some(j as int)
                && match skip {
                Some(k) => t@[j as int].0@ != k@,
                None => true,
            },
            None => selection(t@, val as int, spec_skip(skip)) is None,
        },
{
    let ghost skipv = spec_skip(skip);
    let mut sum: usize = 0;
    let mut j: usize = 0;
    while j < t.len()
        invariant
            j <= t@.len(),
            sum_counts(t@) <= usize::MAX,
            skipv == spec_skip(skip),
            0 <= sum <= sum_counts(t@.take(j as int)),
            selection(t@, val as int, skipv) == select_idx(
                t@,
                j as int,
                sum as int,
                val as int,
                skipv,
            ),
        decreases t@.len() - j,
    {
        proof {
            lemma_sum_take(t@, j as int);
            lemma_sum_take(t@, j as int + 1);
        }
        let c = t[j].1;
        if sum + c > val {
            let is_skip = match skip {
                Some(k) => t[j].0.eq(k),
                None => false,
            };
            if is_skip {
                j += 1;
            } else {
                return Some(j);
            }
        } else {
            sum = sum + c;
            j += 1;
        }
    }
    None
}

} // verus!
