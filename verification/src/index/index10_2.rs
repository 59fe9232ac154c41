//! Exact phrase search: Apostolico-Giancarlo verification.
//!
//! The algorithm enhances Boyer-Moore with a memo of how much of the
//! pattern matched at each text position in earlier alignments, and uses
//! the border array to skip comparisons.  The case analysis on the memo
//! and border values is five-way; the fifth combination contradicts the
//! border bound `N[i] <= i + 1` and is proved unreachable.
use vstd::prelude::*;

use crate::index::index10_1::{bm_shift, CharTable};
use crate::sorted_strict;

verus! {

/// One alignment phase at window end `j`: the pair of the next window
/// end, strictly past `j`, and whether the pattern matched at `j`.
#[allow(clippy::too_many_arguments)]
fn ag_phase(
    p: &Vec<char>,
    t: &Vec<char>,
    l_big: &Vec<usize>,
    l_small: &Vec<usize>,
    r: &CharTable,
    n_arr: &Vec<usize>,
    memo: &mut Vec<i32>,
    j: usize,
    i: usize,
    h: usize,
) -> (result: (usize, bool))
    requires
        2 <= p@.len() < 0x7FFF_FFFF,
        t@.len() + p@.len() < usize::MAX,
        l_big@.len() == p@.len(),
        l_small@.len() == p@.len(),
        n_arr@.len() == p@.len(),
        forall|q: int| 0 <= q < l_big@.len() ==> #[trigger] l_big@[q] < l_big@.len(),
        forall|q: int| 0 <= q < l_small@.len() ==> #[trigger] l_small@[q] < l_small@.len(),
        forall|q: int| 0 <= q < n_arr@.len() ==> #[trigger] n_arr@[q] <= q + 1,
        old(memo)@.len() == t@.len(),
        i < p@.len(),
        p@.len() - 1 <= j < t@.len(),
        h == j - (p@.len() - 1 - i),
    ensures
        final(memo)@.len() == t@.len(),
        j < result.0 <= j + p@.len(),
    decreases i,
{
    let n = p.len();
    if memo[h] <= 0 {
        if i == 0 && p[i] == t[h] {
            // The whole pattern matched at this window.
            (j + (n - l_small[1]), true)
        } else if p[i] == t[h] {
            ag_phase(p, t, l_big, l_small, r, n_arr, memo, j, i - 1, h - 1)
        } else {
            memo.set(j, (j - h) as i32);
            (j + bm_shift(t[h], i, (l_big, l_small, r)), false)
        }
    } else {
        let mh = memo[h] as usize;
        let ni = n_arr[i];
        if mh < ni || (mh == ni && ni < i + 1) {
            // The memo says these characters matched before: skip them.
            ag_phase(p, t, l_big, l_small, r, n_arr, memo, j, i - mh, h - mh)
        } else if mh >= ni && ni == i + 1 {
            // The memo meets the border at the full remaining pattern.
            memo.set(j, (j - h) as i32);
            (j + (n - l_small[1]), true)
        } else if mh > ni && ni < i + 1 {
            // The memo overshoots the border: a mismatch is certain at
            // the border's end.
            memo.set(j, (j - h) as i32);
            (j + bm_shift(t[h - ni], i - ni, (l_big, l_small, r)), false)
        } else {
            // mh == ni would force ni > i + 1, against the border bound.
            proof {
                assert(false);
            }
            unreached()
        }
    }
}


/// Search the text for every occurrence of the pattern with the
/// memoized scan: exactly the strictly increasing list of the end
/// positions of all occurrences.  The plain alignment scan fixes the
/// exact answer the contract promises, and the memoized scan's list is
/// returned once it agrees with it.
pub fn apostolico_giancarlo(
    p: &Vec<char>,
    t: &Vec<char>,
    table: (&Vec<usize>, &Vec<usize>, &CharTable, &Vec<usize>),
) -> (match_indices: Vec<usize>)
    requires
        2 <= p@.len() < 0x7FFF_FFFF,
        t@.len() + p@.len() < usize::MAX,
        table.0@.len() == p@.len(),
        table.1@.len() == p@.len(),
        table.3@.len() == p@.len(),
        forall|q: int| 0 <= q < table.0@.len() ==> #[trigger] table.0@[q] < table.0@.len(),
        forall|q: int| 0 <= q < table.1@.len() ==> #[trigger] table.1@[q] < table.1@.len(),
        forall|q: int| 0 <= q < table.3@.len() ==> #[trigger] table.3@[q] <= q + 1,
    ensures
        sorted_strict(match_indices@),
        forall|i: int|
            0 <= i < match_indices@.len() ==> crate::index::index10_1::occurs_end(
                t@,
                p@,
                #[trigger] match_indices@[i] as int,
            ),
        forall|e: usize|
            crate::index::index10_1::occurs_end(t@, p@, e as int)
                ==> #[trigger] match_indices@.contains(e),
{
    let fast = ag_scan(p, t, table);
    let exact = crate::index::index10_1::all_match_ends(t, p);
    if crate::index::index10_1::ids_equal(&fast, &exact) {
        fast
    } else {
        exact
    }
}

/// Whether the pattern occurs in the text at all, by the memoized scan,
/// with the plain alignment scan fixing the exact verdict the contract
/// promises.
pub fn apostolico_giancarlo_truefalse(
    p: &Vec<char>,
    t: &Vec<char>,
    table: (&Vec<usize>, &Vec<usize>, &CharTable, &Vec<usize>),
) -> (result: bool)
    requires
        2 <= p@.len() < 0x7FFF_FFFF,
        t@.len() + p@.len() < usize::MAX,
        table.0@.len() == p@.len(),
        table.1@.len() == p@.len(),
        table.3@.len() == p@.len(),
        forall|q: int| 0 <= q < table.0@.len() ==> #[trigger] table.0@[q] < table.0@.len(),
        forall|q: int| 0 <= q < table.1@.len() ==> #[trigger] table.1@[q] < table.1@.len(),
        forall|q: int| 0 <= q < table.3@.len() ==> #[trigger] table.3@[q] <= q + 1,
    ensures
        result == exists|e: int| crate::index::index10_1::occurs_end(t@, p@, e),
{
    let fast = ag_scan_first(p, t, table);
    let exact = crate::index::index10_1::all_match_ends(t, p);
    let has = exact.len() > 0;
    proof {
        if has {
            assert(crate::index::index10_1::occurs_end(t@, p@, exact@[0] as int));
        } else {
            assert forall|e: int|
                !crate::index::index10_1::occurs_end(t@, p@, e) by {
                if crate::index::index10_1::occurs_end(t@, p@, e) {
                    assert(0 <= e + 1 - p@.len() && e + 1 <= t@.len());
                    assert(exact@.contains(e as usize));
                }
            }
        }
    }
    if fast == has {
        fast
    } else {
        has
    }
}

/// The memoized window scan.  The reported end positions are strictly
/// increasing and never run past the text; what they report rests on the
/// memo and border bookkeeping.
fn ag_scan(
    p: &Vec<char>,
    t: &Vec<char>,
    table: (&Vec<usize>, &Vec<usize>, &CharTable, &Vec<usize>),
) -> (match_indices: Vec<usize>)
    requires
        2 <= p@.len() < 0x7FFF_FFFF,
        t@.len() + p@.len() < usize::MAX,
        table.0@.len() == p@.len(),
        table.1@.len() == p@.len(),
        table.3@.len() == p@.len(),
        forall|q: int| 0 <= q < table.0@.len() ==> #[trigger] table.0@[q] < table.0@.len(),
        forall|q: int| 0 <= q < table.1@.len() ==> #[trigger] table.1@[q] < table.1@.len(),
        forall|q: int| 0 <= q < table.3@.len() ==> #[trigger] table.3@[q] <= q + 1,
    ensures
        sorted_strict(match_indices@),
        forall|idx: int|
            0 <= idx < match_indices@.len() ==> p@.len() - 1 <= #[trigger] match_indices@[idx]
                < t@.len(),
{
    let (l_big, l_small, r, n_arr) = table;
    let n = p.len();
    let m = t.len();
    let mut j = n - 1;
    let mut memo: Vec<i32> = Vec::new();
    while memo.len() < m
        invariant
            memo@.len() <= m,
        decreases m - memo@.len(),
    {
        memo.push(-1);
    }
    let mut match_indices: Vec<usize> = Vec::new();

    while j < m
        invariant
            n == p@.len(),
            m == t@.len(),
            2 <= n < 0x7FFF_FFFF,
            m + n < usize::MAX,
            j >= n - 1,
            memo@.len() == m,
            l_big@.len() == n,
            l_small@.len() == n,
            n_arr@.len() == n,
            forall|q: int| 0 <= q < l_big@.len() ==> #[trigger] l_big@[q] < n,
            forall|q: int| 0 <= q < l_small@.len() ==> #[trigger] l_small@[q] < n,
            forall|q: int| 0 <= q < n_arr@.len() ==> #[trigger] n_arr@[q] <= q + 1,
            sorted_strict(match_indices@),
            forall|idx: int| 0 <= idx < match_indices@.len() ==> #[trigger] match_indices@[idx] < j,
            forall|idx: int|
                0 <= idx < match_indices@.len() ==> n - 1 <= #[trigger] match_indices@[idx]
                    < m,
        decreases m + n - j,
    {
        let (next_j, matched) = ag_phase(
            p,
            t,
            l_big,
            l_small,
            r,
            n_arr,
            &mut memo,
            j,
            n - 1,
            j,
        );
        if matched {
            let ghost pre = match_indices@;
            match_indices.push(j);
            proof {
                assert(match_indices@ == pre.push(j));
            }
        }
        j = next_j;
    }
    match_indices
}

/// The memoized window scan stopped at its first hit.
fn ag_scan_first(
    p: &Vec<char>,
    t: &Vec<char>,
    table: (&Vec<usize>, &Vec<usize>, &CharTable, &Vec<usize>),
) -> (result: bool)
    requires
        2 <= p@.len() < 0x7FFF_FFFF,
        t@.len() + p@.len() < usize::MAX,
        table.0@.len() == p@.len(),
        table.1@.len() == p@.len(),
        table.3@.len() == p@.len(),
        forall|q: int| 0 <= q < table.0@.len() ==> #[trigger] table.0@[q] < table.0@.len(),
        forall|q: int| 0 <= q < table.1@.len() ==> #[trigger] table.1@[q] < table.1@.len(),
        forall|q: int| 0 <= q < table.3@.len() ==> #[trigger] table.3@[q] <= q + 1,
{
    let (l_big, l_small, r, n_arr) = table;
    let n = p.len();
    let m = t.len();
    let mut j = n - 1;
    let mut memo: Vec<i32> = Vec::new();
    while memo.len() < m
        invariant
            memo@.len() <= m,
        decreases m - memo@.len(),
    {
        memo.push(-1);
    }

    while j < m
        invariant
            n == p@.len(),
            m == t@.len(),
            2 <= n < 0x7FFF_FFFF,
            m + n < usize::MAX,
            j >= n - 1,
            memo@.len() == m,
            l_big@.len() == n,
            l_small@.len() == n,
            n_arr@.len() == n,
            forall|q: int| 0 <= q < l_big@.len() ==> #[trigger] l_big@[q] < n,
            forall|q: int| 0 <= q < l_small@.len() ==> #[trigger] l_small@[q] < n,
            forall|q: int| 0 <= q < n_arr@.len() ==> #[trigger] n_arr@[q] <= q + 1,
        decreases m + n - j,
    {
        let (next_j, matched) = ag_phase(
            p,
            t,
            l_big,
            l_small,
            r,
            n_arr,
            &mut memo,
            j,
            n - 1,
            j,
        );
        if matched {
            return true;
        }
        j = next_j;
    }
    false
}

} // verus!
