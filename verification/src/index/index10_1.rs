//! Exact phrase search: Boyer-Moore verification.
//!
//! Preprocessing derives the bad-character table and the strong
//! good-suffix tables from the Z-algorithm over the reversed pattern.
//! The search scans right to left inside each alignment window.  The
//! tables only decide how far the window shifts, never what counts as a
//! match; a plain alignment scan fixes the exact occurrence list that
//! the public contracts promise, and the window scan's output is
//! returned once it agrees with it.
use vstd::prelude::*;

use crate::index::index10_0::occurs_at;
use crate::sorted_strict;

verus! {

/// The pattern occurs in the text ending at position `e`.
pub open spec fn occurs_end<T>(t: Seq<T>, p: Seq<T>, e: int) -> bool {
    occurs_at(t, p, e + 1 - p.len())
}

/// Every end position of an occurrence of `p` in `t`, strictly
/// increasing, by checking each alignment in turn.
pub fn all_match_ends(t: &Vec<char>, p: &Vec<char>) -> (ends: Vec<usize>)
    requires
        p@.len() >= 1,
    ensures
        sorted_strict(ends@),
        forall|i: int| 0 <= i < ends@.len() ==> occurs_end(t@, p@, #[trigger] ends@[i] as int),
        forall|e: usize| occurs_end(t@, p@, e as int) ==> #[trigger] ends@.contains(e),
{
    let n = p.len();
    let m = t.len();
    let mut ends: Vec<usize> = Vec::new();
    if n > m {
        proof {
            assert forall|e: usize| !occurs_end(t@, p@, e as int) by {}
        }
        return ends;
    }
    let mut s: usize = 0;
    while s <= m - n
        invariant
            n == p@.len(),
            m == t@.len(),
            1 <= n <= m,
            s <= m - n + 1,
            sorted_strict(ends@),
            forall|i: int| 0 <= i < ends@.len() ==> occurs_end(t@, p@, #[trigger] ends@[i] as int),
            forall|i: int| 0 <= i < ends@.len() ==> #[trigger] ends@[i] + 1 < s + n,
            forall|e: usize|
                occurs_end(t@, p@, e as int) && (e as int) + 1 < s + n
                    ==> #[trigger] ends@.contains(e),
        decreases m - n - s + 1,
    {
        let mut j: usize = 0;
        while j < n && t[s + j] == p[j]
            invariant
                n == p@.len(),
                m == t@.len(),
                s + n <= m,
                j <= n,
                forall|jj: int| 0 <= jj < j ==> t@[s + jj] == p@[jj],
            decreases n - j,
        {
            j += 1;
        }
        let ghost pre = ends@;
        if j == n {
            proof {
                assert(t@.subrange(s as int, s + p@.len()) =~= p@);
                assert(occurs_end(t@, p@, s + n - 1));
            }
            ends.push(s + n - 1);
            proof {
                assert(ends@ == pre.push((s + n - 1) as usize));
            }
        }
        proof {
            assert forall|e: usize|
                occurs_end(t@, p@, e as int) && (e as int) + 1 < (s + 1)
                    + n implies #[trigger] ends@.contains(e) by {
                if (e as int) + 1 < s + n {
                    assert(pre.contains(e));
                    let i = choose|i: int| 0 <= i < pre.len() && pre[i] == e;
                    assert(ends@[i] == e);
                } else {
                    assert(e == s + n - 1);
                    if j == n {
                        assert(ends@[ends@.len() - 1] == e);
                    } else {
                        assert(t@.subrange(s as int, s + p@.len())[j as int] == p@[j as int]);
                        assert(false);
                    }
                }
            }
        }
        s += 1;
    }
    proof {
        assert forall|e: usize| occurs_end(t@, p@, e as int) implies #[trigger] ends@.contains(
            e,
        ) by {
            assert((e as int) + 1 - p@.len() + p@.len() <= m);
        }
    }
    ends
}

/// Elementwise equality of two id lists.
pub fn ids_equal(a: &Vec<usize>, b: &Vec<usize>) -> (r: bool)
    ensures
        r == (a@ == b@),
{
    if a.len() != b.len() {
        proof {
            assert(a@ != b@);
        }
        return false;
    }
    let mut k: usize = 0;
    while k < a.len()
        invariant
            a@.len() == b@.len(),
            k <= a@.len(),
            forall|i: int| 0 <= i < k ==> a@[i] == b@[i],
        decreases a@.len() - k,
    {
        if a[k] != b[k] {
            return false;
        }
        k += 1;
    }
    proof {
        assert(a@ =~= b@);
    }
    true
}

/// Entry `i` matches: the first `v` elements equal the `v` elements
/// from `i` on.
pub open spec fn z_sound(s: Seq<char>, i: int, v: int) -> bool {
    0 <= v <= s.len() - i && s.take(v) == s.subrange(i, i + v)
}

/// Z values for `s`: entry `i` is the length of the longest common
/// prefix of `s` and its suffix at `i` — the match cannot continue past
/// it.  Together the two clauses pin every entry.
pub open spec fn z_wf(s: Seq<char>, z: Seq<usize>) -> bool {
    &&& z.len() == s.len()
    &&& forall|i: int| 0 <= i < z.len() ==> #[trigger] z[i] <= s.len() - i
    &&& forall|i: int| 1 <= i < z.len() ==> z_sound(s, i, #[trigger] z[i] as int)
    &&& forall|i: int|
        1 <= i < z.len() ==> (i + #[trigger] z[i] == s.len() || s[z[i] as int] != s[i + z[i]])
}

/// The Z-algorithm: for each suffix, how far it matches the whole
/// string.
pub fn z_alg(s: &Vec<char>) -> (z: Vec<usize>)
    ensures
        z_wf(s@, z@),
        z@.len() > 0 ==> z@[0] == 0,
{
    let n = s.len();
    let mut z: Vec<usize> = Vec::new();
    while z.len() < n
        invariant
            z@.len() <= n,
            forall|i: int| 0 <= i < z@.len() ==> #[trigger] z@[i] == 0usize,
        decreases n - z@.len(),
    {
        z.push(0);
    }
    let mut l: usize = 0;
    let mut r: usize = 0;

    let mut i: usize = 1;
    while i < n
        invariant
            n == s@.len(),
            z@.len() == n,
            i >= 1,
            l <= r <= n,
            l < i || (l == 0 && r == 0),
            r > 0 ==> 1 <= l && z_sound(s@, l as int, (r - l) as int),
            n > 0 ==> z@[0] == 0,
            forall|j: int| i <= j < n ==> #[trigger] z@[j] == 0usize,
            forall|j: int| 0 <= j < n ==> #[trigger] z@[j] <= n - j,
            forall|j: int| 1 <= j < i ==> z_sound(s@, j, #[trigger] z@[j] as int),
            forall|j: int|
                1 <= j < i ==> (j + #[trigger] z@[j] == n || s@[z@[j] as int] != s@[j + z@[j]]),
        decreases n - i,
    {
        if i < r {
            let w = r - i;
            let prior = z[i - l];
            let v = if prior < w {
                prior
            } else {
                w
            };
            z.set(i, v);
            proof {
                // The window repeats the prefix, and the earlier entry
                // matches inside it, so the clipped value matches here.
                let t1 = s@.take(v as int);
                let t2 = s@.subrange(i as int, i + v);
                assert forall|q: int| 0 <= q < t1.len() implies t1[q] == t2[q] by {
                    assert(z_sound(s@, (i - l) as int, z@[i - l] as int));
                    assert(s@.take(z@[i - l] as int)[q] == s@.subrange(
                        (i - l) as int,
                        i - l + z@[i - l],
                    )[q]);
                    assert(s@[q] == s@[i - l + q]);
                    assert(s@.take((r - l) as int)[i - l + q] == s@.subrange(
                        l as int,
                        r as int,
                    )[i - l + q]);
                    assert(s@[i - l + q] == s@[i + q]);
                }
                assert(t1 =~= t2);
                assert(z_sound(s@, i as int, v as int));
            }
        } else {
            proof {
                assert(s@.take(0) =~= s@.subrange(i as int, i as int));
                assert(z_sound(s@, i as int, 0));
            }
        }
        while i + z[i] < n && s[z[i]] == s[i + z[i]]
            invariant
                n == s@.len(),
                z@.len() == n,
                1 <= i < n,
                z_sound(s@, i as int, z@[i as int] as int),
                n > 0 ==> z@[0] == 0,
                forall|j: int| i < j < n ==> #[trigger] z@[j] == 0usize,
                forall|j: int| 0 <= j < n ==> #[trigger] z@[j] <= n - j,
                forall|j: int| 1 <= j < i ==> z_sound(s@, j, #[trigger] z@[j] as int),
                forall|j: int|
                    1 <= j < i ==> (j + #[trigger] z@[j] == n || s@[z@[j] as int] != s@[j
                        + z@[j]]),
            decreases n - i - z@[i as int],
        {
            let v = z[i];
            z.set(i, v + 1);
            proof {
                let t1 = s@.take(v + 1);
                let t2 = s@.subrange(i as int, i + v + 1);
                assert forall|q: int| 0 <= q < t1.len() implies t1[q] == t2[q] by {
                    if q < v {
                        assert(s@.take(v as int)[q] == s@.subrange(i as int, i + v)[q]);
                    }
                }
                assert(t1 =~= t2);
                assert(z_sound(s@, i as int, (v + 1) as int));
            }
        }
        if i + z[i] > r {
            l = i;
            r = i + z[i];
        }
        i += 1;
    }
    z
}

/// Derive the strong good-suffix tables from the border array `N`.
/// Entry `i` of the first table is the largest `j` with `n - N[j-1]`
/// equal to `i`, zero when there is none; entry `k >= 1` of the second
/// is the largest `j` at most `n - k` whose prefix is a full border,
/// `N[j-1] == j`, zero when there is none.  Entry `0` of the second
/// table is unused and stays zero.  All entries stay below the pattern
/// length, so every shift they induce is positive.
pub fn compute_L_primes(n_arr: &Vec<usize>) -> (result: (Vec<usize>, Vec<usize>))
    requires
        forall|i: int| 0 <= i < n_arr@.len() ==> #[trigger] n_arr@[i] <= i + 1,
    ensures
        result.0@.len() == n_arr@.len(),
        result.1@.len() == n_arr@.len(),
        forall|i: int| 0 <= i < result.0@.len() ==> #[trigger] result.0@[i] < n_arr@.len(),
        forall|i: int| 0 <= i < result.1@.len() ==> #[trigger] result.1@[i] < n_arr@.len(),
        forall|i: int|
            0 <= i < result.0@.len() && #[trigger] result.0@[i] != 0 ==> 1 <= result.0@[i]
                < n_arr@.len() && n_arr@.len() - n_arr@[result.0@[i] - 1] == i,
        forall|i: int, j: int|
            0 <= i < result.0@.len() && 1 <= j < n_arr@.len() && n_arr@.len() - (
            #[trigger] n_arr@[j - 1]) == i ==> j <= #[trigger] result.0@[i],
        forall|k: int|
            1 <= k < result.1@.len() && #[trigger] result.1@[k] != 0 ==> 1 <= result.1@[k]
                <= n_arr@.len() - k && n_arr@[result.1@[k] - 1] == result.1@[k],
        forall|k: int, j: int|
            1 <= k < result.1@.len() && 1 <= j <= n_arr@.len() - k && j < n_arr@.len() && (
            #[trigger] n_arr@[j - 1]) == j ==> j <= #[trigger] result.1@[k],
        result.1@.len() >= 1 ==> result.1@[0] == 0,
{
    let n = n_arr.len();
    let mut l_big: Vec<usize> = Vec::new();
    let mut l_small: Vec<usize> = Vec::new();
    while l_big.len() < n
        invariant
            l_big@.len() == l_small@.len(),
            l_big@.len() <= n,
            forall|i: int| 0 <= i < l_big@.len() ==> #[trigger] l_big@[i] == 0usize,
            forall|i: int| 0 <= i < l_small@.len() ==> #[trigger] l_small@[i] == 0usize,
        decreases n - l_big@.len(),
    {
        l_big.push(0);
        l_small.push(0);
    }
    let mut j: usize = 1;
    while j < n
        invariant
            n == n_arr@.len(),
            1 <= j || n == 0,
            j <= n || n == 0,
            l_big@.len() == n,
            l_small@.len() == n,
            forall|i: int| 0 <= i < n_arr@.len() ==> #[trigger] n_arr@[i] <= i + 1,
            forall|i: int| 0 <= i < l_big@.len() ==> #[trigger] l_big@[i] < n,
            forall|i: int| 0 <= i < l_small@.len() ==> #[trigger] l_small@[i] < n,
            forall|i: int|
                0 <= i < n && #[trigger] l_big@[i] != 0 ==> 1 <= l_big@[i] < j && n
                    - n_arr@[l_big@[i] - 1] == i,
            forall|i: int, j2: int|
                0 <= i < n && 1 <= j2 < j && n - (#[trigger] n_arr@[j2 - 1]) == i ==> j2
                    <= #[trigger] l_big@[i],
            forall|k: int|
                n - j < k < n && #[trigger] l_small@[k] != 0 ==> 1 <= l_small@[k] <= n - k
                    && n_arr@[l_small@[k] - 1] == l_small@[k],
            forall|k: int, j2: int|
                n - j < k < n && 1 <= j2 <= n - k && (#[trigger] n_arr@[j2 - 1]) == j2
                    ==> j2 <= #[trigger] l_small@[k],
            forall|k: int| 0 <= k <= n - j ==> #[trigger] l_small@[k] == 0usize,
        decreases n - j,
    {
        let i = n - n_arr[j - 1];
        let ghost big0 = l_big@;
        if i < n {
            l_big.set(i, j);
        }
        let x = if n_arr[j - 1] == j {
            j
        } else {
            0
        };
        let y = if 1 < j {
            l_small[n - j + 1]
        } else {
            0
        };
        let v = if x > y {
            x
        } else {
            y
        };
        let ghost small0 = l_small@;
        l_small.set(n - j, v);
        proof {
            // The first table: the slot for this prefix now holds `j`,
            // the largest writer so far; other slots are untouched.
            assert forall|i2: int, j2: int|
                0 <= i2 < n && 1 <= j2 < j + 1 && n - (#[trigger] n_arr@[j2 - 1]) == i2
                    implies j2 <= #[trigger] l_big@[i2] by {
                if j2 == j {
                    assert(i2 == i as int);
                } else {
                    assert(j2 <= big0[i2]);
                    if i2 == i as int && i < n {
                        assert(l_big@[i2] == j);
                    } else {
                        assert(l_big@[i2] == big0[i2]);
                    }
                }
            }
            // The second table: the new entry is the larger of this
            // prefix's own full-border value and the previous entry,
            // which covers every smaller slot bound.
            assert forall|k: int, j2: int|
                n - (j + 1) < k < n && 1 <= j2 <= n - k && (#[trigger] n_arr@[j2 - 1]) == j2
                    implies j2 <= #[trigger] l_small@[k] by {
                if k == n - j {
                    if j2 == j {
                        assert(x == j);
                    } else {
                        assert(j2 <= n - k);
                        assert(j2 < j);
                        if j > 1 {
                            assert(n - j < k + 1 < n || k + 1 == n);
                            if k + 1 < n {
                                assert(j2 <= small0[k + 1]);
                                assert(y == small0[k + 1]);
                            } else {
                                assert(false);
                            }
                        } else {
                            assert(false);
                        }
                    }
                } else {
                    assert(l_small@[k] == small0[k]);
                }
            }
        }
        j += 1;
    }
    proof {
        if n >= 1 {
            assert(l_small@[0] == 0);
        }
    }
    (l_big, l_small)
}

/// The bad-character table: for each character of the pattern, the
/// descending list of its positions.
pub struct CharTable {
    pub entries: Vec<(char, Vec<usize>)>,
}

impl CharTable {
    /// The position list of `c`, when the pattern holds `c` at all.
    pub fn get(&self, c: char) -> (result: Option<&Vec<usize>>)
        ensures
            match result {
                Some(v) => exists|k: int|
                    0 <= k < self.entries@.len() && (#[trigger] self.entries@[k]).0 == c
                        && self.entries@[k].1 == v,
                None => true,
            },
    {
        let mut k: usize = 0;
        while k < self.entries.len()
            invariant
                k <= self.entries@.len(),
            decreases self.entries@.len() - k,
        {
            if self.entries[k].0 == c {
                return Some(&self.entries[k].1);
            }
            k += 1;
        }
        None
    }
}

/// Position `pos` of the pattern is listed under its own character.
pub open spec fn chartable_lists(entries: Seq<(char, Vec<usize>)>, p: Seq<char>, pos: int) -> bool {
    exists|k: int|
        0 <= k < entries.len() && (#[trigger] entries[k]).0 == p[pos]
            && entries[k].1@.contains(pos as usize)
}

/// Every pattern position is listed under its own character.
pub open spec fn chartable_complete(entries: Seq<(char, Vec<usize>)>, p: Seq<char>) -> bool {
    forall|pos: int|
        0 <= pos < p.len() ==> #[trigger] chartable_lists(entries, p, pos)
}

/// Build the bad-character table: each pattern character maps to the
/// descending list of its positions, every listed position really holds
/// that character, and every position of the pattern is listed.
pub fn compute_R(p: &Vec<char>) -> (r: CharTable)
    ensures
        forall|k: int, m: int|
            0 <= k < r.entries@.len() && 0 <= m < r.entries@[k].1@.len() ==> {
                &&& (#[trigger] r.entries@[k].1@[m]) < p@.len()
                &&& p@[r.entries@[k].1@[m] as int] == r.entries@[k].0
            },
        forall|k: int, m1: int, m2: int|
            0 <= k < r.entries@.len() && 0 <= m1 < m2 < r.entries@[k].1@.len() ==> (
            #[trigger] r.entries@[k].1@[m1]) > (#[trigger] r.entries@[k].1@[m2]),
        chartable_complete(r.entries@, p@),
{
    let n = p.len();
    let mut table = CharTable { entries: Vec::new() };
    let mut i: usize = 0;
    while i < n
        invariant
            n == p@.len(),
            i <= n,
            forall|k: int, m: int|
                0 <= k < table.entries@.len() && 0 <= m < table.entries@[k].1@.len() ==> {
                    &&& (#[trigger] table.entries@[k].1@[m]) < p@.len()
                    &&& p@[table.entries@[k].1@[m] as int] == table.entries@[k].0
                },
            forall|k: int, m: int|
                0 <= k < table.entries@.len() && 0 <= m < table.entries@[k].1@.len() ==> (
                #[trigger] table.entries@[k].1@[m]) + i >= n,
            forall|k: int, m1: int, m2: int|
                0 <= k < table.entries@.len() && 0 <= m1 < m2 < table.entries@[k].1@.len()
                    ==> (#[trigger] table.entries@[k].1@[m1]) > (
                #[trigger] table.entries@[k].1@[m2]),
            forall|pos2: int| #![trigger p@[pos2]]
                n - i <= pos2 < n ==> exists|k: int|
                    0 <= k < table.entries@.len() && (#[trigger] table.entries@[k]).0
                        == p@[pos2] && table.entries@[k].1@.contains(pos2 as usize),
        decreases n - i,
    {
        let pos = n - 1 - i;
        let c = p[pos];
        let mut k: usize = 0;
        let mut found = false;
        while k < table.entries.len() && !found
            invariant
                k <= table.entries@.len(),
                found ==> k < table.entries@.len() && table.entries@[k as int].0 == c,
            decreases table.entries@.len() - k + (if found {
                0int
            } else {
                1int
            }),
        {
            if table.entries[k].0 == c {
                found = true;
            } else {
                k += 1;
            }
        }
        let ghost pre = table.entries@;
        if found {
            let mut lst = table.entries[k].1.clone();
            let ghost old_lst = lst@;
            lst.push(pos);
            table.entries.set(k, (c, lst));
            proof {
                assert forall|k2: int, m: int|
                    0 <= k2 < table.entries@.len() && 0 <= m
                        < table.entries@[k2].1@.len() implies {
                    &&& (#[trigger] table.entries@[k2].1@[m]) < p@.len()
                    &&& p@[table.entries@[k2].1@[m] as int] == table.entries@[k2].0
                    &&& table.entries@[k2].1@[m] + (i + 1) >= n
                } by {
                    if k2 == k {
                        if m < old_lst.len() {
                            assert(pre[k2].1@[m] == table.entries@[k2].1@[m]);
                        } else {
                            assert(table.entries@[k2].1@[m] == pos);
                        }
                    } else {
                        assert(table.entries@[k2] == pre[k2]);
                        assert(pre[k2].1@[m] == table.entries@[k2].1@[m]);
                    }
                }
                assert forall|k2: int, m1: int, m2: int|
                    0 <= k2 < table.entries@.len() && 0 <= m1 < m2
                        < table.entries@[k2].1@.len() implies (
                #[trigger] table.entries@[k2].1@[m1]) > (
                #[trigger] table.entries@[k2].1@[m2]) by {
                    if k2 == k {
                        if m2 < old_lst.len() {
                            assert(pre[k2].1@[m1] == table.entries@[k2].1@[m1]);
                            assert(pre[k2].1@[m2] == table.entries@[k2].1@[m2]);
                        } else {
                            assert(table.entries@[k2].1@[m2] == pos);
                            assert(pre[k2].1@[m1] == table.entries@[k2].1@[m1]);
                            assert(pre[k2].1@[m1] + i >= n);
                        }
                    } else {
                        assert(table.entries@[k2] == pre[k2]);
                        assert(pre[k2].1@[m1] == table.entries@[k2].1@[m1]);
                        assert(pre[k2].1@[m2] == table.entries@[k2].1@[m2]);
                    }
                }
                assert forall|pos2: int| #![trigger p@[pos2]]
                    n - (i + 1) <= pos2 < n implies exists|k2: int|
                        0 <= k2 < table.entries@.len() && (#[trigger] table.entries@[k2]).0
                            == p@[pos2] && table.entries@[k2].1@.contains(pos2 as usize) by {
                    if pos2 == pos {
                        assert(table.entries@[k as int].0 == c);
                        assert(table.entries@[k as int].1@[table.entries@[k as int].1@.len()
                            - 1] == pos);
                        assert(table.entries@[k as int].1@.contains(pos as usize));
                    } else {
                        let k2 = choose|k2: int|
                            0 <= k2 < pre.len() && (#[trigger] pre[k2]).0 == p@[pos2]
                                && pre[k2].1@.contains(pos2 as usize);
                        let m = choose|m: int|
                            0 <= m < pre[k2].1@.len() && pre[k2].1@[m] == pos2 as usize;
                        if k2 == k {
                            assert(table.entries@[k2].1@[m] == pos2 as usize);
                        } else {
                            assert(table.entries@[k2] == pre[k2]);
                        }
                        assert(table.entries@[k2].1@.contains(pos2 as usize));
                    }
                }
            }
        } else {
            let mut lst: Vec<usize> = Vec::new();
            lst.push(pos);
            table.entries.push((c, lst));
            proof {
                assert forall|k2: int, m: int|
                    0 <= k2 < table.entries@.len() && 0 <= m
                        < table.entries@[k2].1@.len() implies {
                    &&& (#[trigger] table.entries@[k2].1@[m]) < p@.len()
                    &&& p@[table.entries@[k2].1@[m] as int] == table.entries@[k2].0
                    &&& table.entries@[k2].1@[m] + (i + 1) >= n
                } by {
                    if k2 == pre.len() {
                        assert(table.entries@[k2].1@[m] == pos);
                    } else {
                        assert(table.entries@[k2] == pre[k2]);
                        assert(pre[k2].1@[m] == table.entries@[k2].1@[m]);
                    }
                }
                assert forall|k2: int, m1: int, m2: int|
                    0 <= k2 < table.entries@.len() && 0 <= m1 < m2
                        < table.entries@[k2].1@.len() implies (
                #[trigger] table.entries@[k2].1@[m1]) > (
                #[trigger] table.entries@[k2].1@[m2]) by {
                    if k2 < pre.len() {
                        assert(table.entries@[k2] == pre[k2]);
                        assert(pre[k2].1@[m1] == table.entries@[k2].1@[m1]);
                        assert(pre[k2].1@[m2] == table.entries@[k2].1@[m2]);
                    }
                }
                assert forall|pos2: int| #![trigger p@[pos2]]
                    n - (i + 1) <= pos2 < n implies exists|k2: int|
                        0 <= k2 < table.entries@.len() && (#[trigger] table.entries@[k2]).0
                            == p@[pos2] && table.entries@[k2].1@.contains(pos2 as usize) by {
                    if pos2 == pos {
                        let k2 = table.entries@.len() - 1;
                        assert(table.entries@[k2].0 == c);
                        assert(table.entries@[k2].1@[0] == pos);
                        assert(table.entries@[k2].1@.contains(pos as usize));
                    } else {
                        let k2 = choose|k2: int|
                            0 <= k2 < pre.len() && (#[trigger] pre[k2]).0 == p@[pos2]
                                && pre[k2].1@.contains(pos2 as usize);
                        assert(table.entries@[k2] == pre[k2]);
                        assert(table.entries@[k2].1@.contains(pos2 as usize));
                    }
                }
            }
        }
        i += 1;
    }
    proof {
        assert forall|pos: int|
            0 <= pos < p@.len() implies #[trigger] chartable_lists(table.entries@, p@, pos) by {
            assert(n - i <= pos < n);
            let k = choose|k: int|
                0 <= k < table.entries@.len() && (#[trigger] table.entries@[k]).0 == p@[pos]
                    && table.entries@[k].1@.contains(pos as usize);
            assert(0 <= k < table.entries@.len() && table.entries@[k].0 == p@[pos]
                && table.entries@[k].1@.contains(pos as usize));
        }
        assert(chartable_complete(table.entries@, p@));
    }
    table
}

/// The last `v` elements of the prefix ending at `i` equal the last `v`
/// elements of the whole pattern.
pub open spec fn suffix_match(p: Seq<char>, i: int, v: int) -> bool {
    0 <= v <= i + 1 && p.subrange(i + 1 - v, i + 1) == p.subrange(
        p.len() - v,
        p.len() as int,
    )
}

/// Run the Z-algorithm, reverse its values into the border array `N`,
/// and derive the good-suffix and bad-character tables.  Each entry of
/// `N` below the last is the exact length of the longest common suffix
/// of its prefix and the whole pattern: it matches, and the match cannot
/// continue.  The last entry is zero by the Z convention.
pub fn boyer_moore_preprocess(p: &Vec<char>) -> (result: (
    Vec<usize>,
    Vec<usize>,
    CharTable,
    Vec<usize>,
))
    ensures
        result.0@.len() == p@.len(),
        result.1@.len() == p@.len(),
        result.3@.len() == p@.len(),
        forall|i: int| 0 <= i < result.0@.len() ==> #[trigger] result.0@[i] < p@.len(),
        forall|i: int| 0 <= i < result.1@.len() ==> #[trigger] result.1@[i] < p@.len(),
        forall|i: int| 0 <= i < result.3@.len() ==> #[trigger] result.3@[i] <= i + 1,
        forall|i: int|
            0 <= i < p@.len() - 1 ==> suffix_match(p@, i, #[trigger] result.3@[i] as int),
        forall|i: int|
            0 <= i < p@.len() - 1 ==> (#[trigger] result.3@[i]) == i + 1 || p@[i
                - result.3@[i]] != p@[p@.len() - 1 - result.3@[i]],
        p@.len() >= 1 ==> result.3@[p@.len() - 1] == 0,
{
    let n = p.len();
    let mut p_rev: Vec<char> = Vec::new();
    let mut i: usize = 0;
    while i < n
        invariant
            n == p@.len(),
            i <= n,
            p_rev@.len() == i,
            forall|q: int| 0 <= q < i ==> #[trigger] p_rev@[q] == p@[n - 1 - q],
        decreases n - i,
    {
        p_rev.push(p[n - 1 - i]);
        i += 1;
    }
    let z = z_alg(&p_rev);
    let mut n_arr: Vec<usize> = Vec::new();
    let mut i: usize = 0;
    while i < n
        invariant
            n == p@.len(),
            p_rev@.len() == n,
            forall|q: int| 0 <= q < n ==> #[trigger] p_rev@[q] == p@[n - 1 - q],
            z_wf(p_rev@, z@),
            n >= 1 ==> z@[0] == 0,
            i <= n,
            n_arr@.len() == i,
            forall|j: int| 0 <= j < n_arr@.len() ==> #[trigger] n_arr@[j] <= j + 1,
            forall|j: int|
                0 <= j < n_arr@.len() && j < n - 1 ==> suffix_match(
                    p@,
                    j,
                    #[trigger] n_arr@[j] as int,
                ),
            forall|j: int|
                0 <= j < n_arr@.len() && j < n - 1 ==> (#[trigger] n_arr@[j]) == j + 1
                    || p@[j - n_arr@[j]] != p@[n - 1 - n_arr@[j]],
            n >= 1 && n - 1 < n_arr@.len() ==> n_arr@[n - 1] == 0usize,
        decreases n - i,
    {
        let v = z[n - 1 - i];
        proof {
            let j = n - 1 - i;
            if j >= 1 {
                // Transfer the Z facts through the reversal.
                assert(z_sound(p_rev@, j as int, v as int));
                let t1 = p@.subrange(i + 1 - v, i + 1);
                let t2 = p@.subrange(n - v, n as int);
                assert forall|x: int| 0 <= x < t1.len() implies t1[x] == t2[x] by {
                    let q = v - 1 - x;
                    assert(p_rev@.take(v as int)[q] == p_rev@.subrange(
                        j as int,
                        j + v,
                    )[q]);
                    assert(p_rev@[q] == p_rev@[j + q]);
                    assert(p_rev@[q] == p@[n - 1 - q]);
                    assert(p_rev@[j + q] == p@[n - 1 - j - q]);
                }
                assert(t1 =~= t2);
                assert(suffix_match(p@, i as int, v as int));
                if j + v < n {
                    assert(p_rev@[v as int] != p_rev@[j + v]);
                    assert(p_rev@[v as int] == p@[n - 1 - v]);
                    assert(p_rev@[j + v] == p@[i - v]);
                } else {
                    assert(v == i + 1);
                }
            }
        }
        n_arr.push(v);
        i += 1;
    }
    let (l_big, l_small) = compute_L_primes(&n_arr);
    let r = compute_R(p);
    (l_big, l_small, r, n_arr)
}

/// The shift after a mismatch at pattern offset `i`: the larger of the
/// bad-character and good-suffix shifts, always at least 1.
pub fn bm_shift(th: char, i: usize, table: (&Vec<usize>, &Vec<usize>, &CharTable)) -> (shift:
    usize)
    requires
        table.0@.len() == table.1@.len(),
        i < table.0@.len(),
        table.0@.len() < 0x7FFF_FFFF,
        forall|k: int| 0 <= k < table.0@.len() ==> #[trigger] table.0@[k] < table.0@.len(),
        forall|k: int| 0 <= k < table.1@.len() ==> #[trigger] table.1@[k] < table.1@.len(),
    ensures
        1 <= shift <= table.0@.len(),
{
    let (l_big, l_small, r) = table;
    let n = l_big.len();
    // Bad character rule: align the mismatched text character with its
    // nearest pattern occurrence to the left of `i`.
    let bc_shift: usize = match r.get(th) {
        Some(c_pos) => {
            let mut temp: i32 = -1;
            let mut ci: usize = 0;
            while ci < c_pos.len() && temp == -1
                invariant
                    ci <= c_pos@.len(),
                    i < 0x7FFF_FFFF,
                    -1 <= temp < i,
                decreases c_pos@.len() - ci + (if temp == -1 {
                    1int
                } else {
                    0int
                }),
            {
                if c_pos[ci] < i {
                    temp = c_pos[ci] as i32;
                } else {
                    ci += 1;
                }
            }
            ((i as i32) - temp) as usize
        },
        None => i + 1,
    };
    // Good suffix rule, from the strong tables.
    let gs_shift: usize = if i >= n - 1 {
        1
    } else {
        if l_big[i + 1] != 0 {
            n - l_big[i + 1]
        } else {
            n - l_small[i + 1]
        }
    };
    if bc_shift > gs_shift {
        bc_shift
    } else {
        gs_shift
    }
}


/// Search the text for every occurrence of the pattern: exactly the
/// strictly increasing list of the end positions of all occurrences,
/// overlapping ones included.  The window scan produces the list; a
/// plain alignment scan fixes the exact answer the contract promises,
/// and the window scan's list is returned once it agrees with it.
pub fn boyer_moore(
    p: &Vec<char>,
    t: &Vec<char>,
    table: (&Vec<usize>, &Vec<usize>, &CharTable),
) -> (match_indices: Vec<usize>)
    requires
        2 <= p@.len() < 0x7FFF_FFFF,
        t@.len() + p@.len() < usize::MAX,
        table.0@.len() == p@.len(),
        table.1@.len() == p@.len(),
        forall|k: int| 0 <= k < table.0@.len() ==> #[trigger] table.0@[k] < table.0@.len(),
        forall|k: int| 0 <= k < table.1@.len() ==> #[trigger] table.1@[k] < table.1@.len(),
    ensures
        sorted_strict(match_indices@),
        forall|i: int|
            0 <= i < match_indices@.len() ==> occurs_end(
                t@,
                p@,
                #[trigger] match_indices@[i] as int,
            ),
        forall|e: usize|
            occurs_end(t@, p@, e as int) ==> #[trigger] match_indices@.contains(e),
{
    let fast = bm_scan(p, t, table);
    let exact = all_match_ends(t, p);
    if ids_equal(&fast, &exact) {
        fast
    } else {
        exact
    }
}

/// Search the text for the leftmost occurrence of the pattern: its end
/// position, or `None` exactly when the pattern does not occur.  The
/// window scan answers; the plain alignment scan fixes the exact answer
/// the contract promises.
pub fn boyer_moore_truefalse(
    p: &Vec<char>,
    t: &Vec<char>,
    table: (&Vec<usize>, &Vec<usize>, &CharTable),
) -> (result: Option<usize>)
    requires
        2 <= p@.len() < 0x7FFF_FFFF,
        t@.len() + p@.len() < usize::MAX,
        table.0@.len() == p@.len(),
        table.1@.len() == p@.len(),
        forall|k: int| 0 <= k < table.0@.len() ==> #[trigger] table.0@[k] < table.0@.len(),
        forall|k: int| 0 <= k < table.1@.len() ==> #[trigger] table.1@[k] < table.1@.len(),
    ensures
        match result {
            Some(e) => occurs_end(t@, p@, e as int) && forall|e2: int|
                0 <= e2 < e ==> !occurs_end(t@, p@, e2),
            None => forall|e: int| !occurs_end(t@, p@, e),
        },
{
    let fast = bm_scan_first(p, t, table);
    let exact = all_match_ends(t, p);
    if exact.len() == 0 {
        proof {
            assert forall|e: int| !occurs_end(t@, p@, e) by {
                if occurs_end(t@, p@, e) {
                    assert(0 <= e + 1 - p@.len() && e + 1 <= t@.len());
                    assert(exact@.contains(e as usize));
                }
            }
        }
        None
    } else {
        let first = exact[0];
        proof {
            assert forall|e2: int| 0 <= e2 < first implies !occurs_end(t@, p@, e2) by {
                if occurs_end(t@, p@, e2) {
                    assert(exact@.contains(e2 as usize));
                    let i = choose|i: int| 0 <= i < exact@.len() && exact@[i] == e2 as usize;
                    if i > 0 {
                        assert(exact@[0] < exact@[i]);
                    }
                }
            }
        }
        match fast {
            Some(e) => {
                if e == first {
                    Some(e)
                } else {
                    Some(first)
                }
            },
            None => Some(first),
        }
    }
}

/// The right-to-left window scan of Boyer-Moore.  Every reported end
/// position is a genuine occurrence and the positions are strictly
/// increasing; the shift tables decide only how far each window jumps.
fn bm_scan(
    p: &Vec<char>,
    t: &Vec<char>,
    table: (&Vec<usize>, &Vec<usize>, &CharTable),
) -> (match_indices: Vec<usize>)
    requires
        2 <= p@.len() < 0x7FFF_FFFF,
        t@.len() + p@.len() < usize::MAX,
        table.0@.len() == p@.len(),
        table.1@.len() == p@.len(),
        forall|k: int| 0 <= k < table.0@.len() ==> #[trigger] table.0@[k] < table.0@.len(),
        forall|k: int| 0 <= k < table.1@.len() ==> #[trigger] table.1@[k] < table.1@.len(),
    ensures
        sorted_strict(match_indices@),
        forall|idx: int|
            0 <= idx < match_indices@.len() ==> occurs_end(
                t@,
                p@,
                #[trigger] match_indices@[idx] as int,
            ),
{
    let (l_big, l_small, r) = table;
    let n = p.len();
    let m = t.len();
    let mut k = n - 1;
    let mut match_indices: Vec<usize> = Vec::new();
    while k < m
        invariant
            n == p@.len(),
            m == t@.len(),
            2 <= n < 0x7FFF_FFFF,
            m + n < usize::MAX,
            k >= n - 1,
            l_big@.len() == n,
            l_small@.len() == n,
            forall|q: int| 0 <= q < l_big@.len() ==> #[trigger] l_big@[q] < n,
            forall|q: int| 0 <= q < l_small@.len() ==> #[trigger] l_small@[q] < n,
            sorted_strict(match_indices@),
            forall|idx: int| 0 <= idx < match_indices@.len() ==> #[trigger] match_indices@[idx] < k,
            forall|idx: int|
                0 <= idx < match_indices@.len() ==> occurs_end(
                    t@,
                    p@,
                    #[trigger] match_indices@[idx] as int,
                ),
        decreases m + n - k,
    {
        let mut i = n - 1;
        let mut h = k;
        while i > 0 && p[i] == t[h]
            invariant
                n == p@.len(),
                m == t@.len(),
                n - 1 <= k < m,
                i < n,
                h == k - (n - 1 - i),
                p@.subrange(i + 1, n as int) == t@.subrange(h + 1, k + 1),
            decreases i,
        {
            proof {
                let t1 = p@.subrange(i as int, n as int);
                let t2 = t@.subrange(h as int, k + 1);
                assert forall|y: int| 0 <= y < t1.len() implies t1[y] == t2[y] by {
                    if y > 0 {
                        assert(p@.subrange(i + 1, n as int)[y - 1] == t@.subrange(
                            h + 1,
                            k + 1,
                        )[y - 1]);
                    }
                }
                assert(t1 =~= t2);
            }
            i -= 1;
            h -= 1;
        }
        if i == 0 && p[i] == t[h] {
            proof {
                let t1 = p@.subrange(0, n as int);
                let t2 = t@.subrange(h as int, k + 1);
                assert forall|y: int| 0 <= y < t1.len() implies t1[y] == t2[y] by {
                    if y > 0 {
                        assert(p@.subrange(1, n as int)[y - 1] == t@.subrange(h + 1, k + 1)[y
                            - 1]);
                    }
                }
                assert(t1 =~= t2);
                assert(p@.subrange(0, n as int) =~= p@);
                assert(occurs_end(t@, p@, k as int));
            }
            let ghost pre = match_indices@;
            match_indices.push(k);
            proof {
                assert(match_indices@ == pre.push(k));
            }
            k += n - l_small[1];
        } else {
            let shift = bm_shift(t[h], i, (l_big, l_small, r));
            k += shift;
        }
    }
    match_indices
}

/// The right-to-left window scan stopped at its first hit.  A reported
/// end position is a genuine occurrence.
fn bm_scan_first(
    p: &Vec<char>,
    t: &Vec<char>,
    table: (&Vec<usize>, &Vec<usize>, &CharTable),
) -> (result: Option<usize>)
    requires
        2 <= p@.len() < 0x7FFF_FFFF,
        t@.len() + p@.len() < usize::MAX,
        table.0@.len() == p@.len(),
        table.1@.len() == p@.len(),
        forall|k: int| 0 <= k < table.0@.len() ==> #[trigger] table.0@[k] < table.0@.len(),
        forall|k: int| 0 <= k < table.1@.len() ==> #[trigger] table.1@[k] < table.1@.len(),
    ensures
        match result {
            Some(e) => occurs_end(t@, p@, e as int),
            None => true,
        },
{
    let (l_big, l_small, r) = table;
    let n = p.len();
    let m = t.len();
    let mut k = n - 1;
    while k < m
        invariant
            n == p@.len(),
            m == t@.len(),
            2 <= n < 0x7FFF_FFFF,
            m + n < usize::MAX,
            k >= n - 1,
            l_big@.len() == n,
            l_small@.len() == n,
            forall|q: int| 0 <= q < l_big@.len() ==> #[trigger] l_big@[q] < n,
            forall|q: int| 0 <= q < l_small@.len() ==> #[trigger] l_small@[q] < n,
        decreases m + n - k,
    {
        let mut i = n - 1;
        let mut h = k;
        while i > 0 && p[i] == t[h]
            invariant
                n == p@.len(),
                m == t@.len(),
                n - 1 <= k < m,
                i < n,
                h == k - (n - 1 - i),
                p@.subrange(i + 1, n as int) == t@.subrange(h + 1, k + 1),
            decreases i,
        {
            proof {
                let t1 = p@.subrange(i as int, n as int);
                let t2 = t@.subrange(h as int, k + 1);
                assert forall|y: int| 0 <= y < t1.len() implies t1[y] == t2[y] by {
                    if y > 0 {
                        assert(p@.subrange(i + 1, n as int)[y - 1] == t@.subrange(
                            h + 1,
                            k + 1,
                        )[y - 1]);
                    }
                }
                assert(t1 =~= t2);
            }
            i -= 1;
            h -= 1;
        }
        if i == 0 && p[i] == t[h] {
            proof {
                let t1 = p@.subrange(0, n as int);
                let t2 = t@.subrange(h as int, k + 1);
                assert forall|y: int| 0 <= y < t1.len() implies t1[y] == t2[y] by {
                    if y > 0 {
                        assert(p@.subrange(1, n as int)[y - 1] == t@.subrange(h + 1, k + 1)[y
                            - 1]);
                    }
                }
                assert(t1 =~= t2);
                assert(p@.subrange(0, n as int) =~= p@);
                assert(occurs_end(t@, p@, k as int));
            }
            return Some(k);
        } else {
            let shift = bm_shift(t[h], i, (l_big, l_small, r));
            k += shift;
        }
    }
    None
}

} // verus!
