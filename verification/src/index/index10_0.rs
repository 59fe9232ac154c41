//! Exact phrase search: candidate filtering plus Knuth-Morris-Pratt
//! verification.
//!
//! The failure table holds, for each pattern prefix, its longest border
//! whose next element differs — a border being a proper prefix that is
//! also a suffix — with `-1` marking positions where the scan must
//! advance instead of falling back.  The scans report exactly the
//! occurrences: every reported position is genuine, and none is missed.
use vstd::prelude::*;

use crate::bounded_by;
use crate::index::{ids_to_titles, postings_of, ArticleTitles, Index, WordMap};
use crate::sorted_strict;

verus! {

/// The pattern `p` occurs in the text `t` starting at `k`.
pub open spec fn occurs_at<T>(t: Seq<T>, p: Seq<T>, k: int) -> bool {
    0 <= k && k + p.len() <= t.len() && t.subrange(k, k + p.len()) == p
}

/// `b` is a border of the prefix of length `k`: a proper prefix of it
/// that is also its suffix.
pub open spec fn is_border<T>(q: Seq<T>, k: int, b: int) -> bool {
    0 <= b < k <= q.len() && q.take(b) == q.subrange(k - b, k)
}

/// The failure table of the pattern `q`, pinned entry by entry.  For a
/// scan position `k` below the pattern length, the entry is the longest
/// border of the length-`k` prefix whose next element differs from
/// `q[k]` — `-1` when every border's next element agrees.  The final
/// entry is the longest border of the whole pattern.  These clauses
/// determine every entry uniquely.
pub open spec fn kmp_table_wf<T>(q: Seq<T>, table: Seq<i32>) -> bool {
    &&& table.len() == q.len() + 1
    &&& table[0] == -1
    &&& forall|k: int| 0 <= k < table.len() ==> -1 <= #[trigger] table[k] < k
    &&& forall|k: int|
        1 <= k < q.len() && #[trigger] table[k] >= 0 ==> is_border(q, k, table[k] as int)
            && q[table[k] as int] != q[k]
    &&& forall|k: int, b: int|
        1 <= k < q.len() && #[trigger] is_border(q, k, b) && b > table[k] ==> q[b] == q[k]
    &&& q.len() >= 1 ==> table[q.len() as int] >= 0 && is_border(
        q,
        q.len() as int,
        table[q.len() as int] as int,
    ) && (forall|b: int|
        #[trigger] is_border(q, q.len() as int, b) ==> b <= table[q.len() as int])
}

/// The empty prefix is a border of every nonempty prefix.
proof fn lemma_zero_border<T>(q: Seq<T>, k: int)
    requires
        1 <= k <= q.len(),
    ensures
        is_border(q, k, 0),
{
    assert(q.take(0) =~= q.subrange(k, k));
}

/// A border of a one-longer prefix shrinks to a border of the prefix,
/// and its next element agrees with the prefix's next element.
proof fn lemma_border_shrink<T>(q: Seq<T>, k: int, e: int)
    requires
        is_border(q, k + 1, e),
        e >= 1,
    ensures
        is_border(q, k, e - 1),
        q[e - 1] == q[k],
{
    assert(q.take(e)[e - 1] == q.subrange(k + 1 - e, k + 1)[e - 1]);
    let t1 = q.take(e - 1);
    let t2 = q.subrange(k - (e - 1), k);
    assert forall|i: int| 0 <= i < t1.len() implies t1[i] == t2[i] by {
        assert(q.take(e)[i] == q.subrange(k + 1 - e, k + 1)[i]);
    }
    assert(t1 =~= t2);
}

/// The smaller of two borders of one prefix is a border of the larger
/// one, taken as a prefix itself.
proof fn lemma_two_borders<T>(q: Seq<T>, k: int, b: int, cb: int)
    requires
        is_border(q, k, b),
        is_border(q, k, cb),
        b < cb,
    ensures
        is_border(q, cb, b),
{
    let t1 = q.take(b);
    let t2 = q.subrange(cb - b, cb);
    assert forall|i: int| 0 <= i < t1.len() implies t1[i] == t2[i] by {
        assert(q.take(b)[i] == q.subrange(k - b, k)[i]);
        assert(q.take(cb)[cb - b + i] == q.subrange(k - cb, k)[cb - b + i]);
    }
    assert(t1 =~= t2);
}

/// A border of a border is a border.
proof fn lemma_border_trans<T>(q: Seq<T>, k: int, b: int, c: int)
    requires
        is_border(q, k, b),
        is_border(q, b, c),
    ensures
        is_border(q, k, c),
{
    assert forall|i: int| 0 <= i < c implies q.take(c)[i] == q.subrange(k - c, k)[i] by {
        assert(q.take(b)[i] == q.subrange(b - c, b)[i]);
        assert(q.take(b)[b - c + i] == q.subrange(k - b, k)[b - c + i]);
    }
    assert(q.take(c) =~= q.subrange(k - c, k));
}

/// A border whose next characters agree extends by one.
proof fn lemma_border_extend<T>(q: Seq<T>, pos: int, cnd: int)
    requires
        0 <= cnd < pos < q.len(),
        q.take(cnd) == q.subrange(pos - cnd, pos),
        q[pos] == q[cnd],
    ensures
        q.take(cnd + 1) == q.subrange(pos + 1 - (cnd + 1), pos + 1),
{
    let t1 = q.take(cnd + 1);
    let t2 = q.subrange(pos - cnd, pos + 1);
    assert forall|i: int| 0 <= i < t1.len() implies t1[i] == t2[i] by {
        if i < cnd {
            assert(q.take(cnd)[i] == q.subrange(pos - cnd, pos)[i]);
        }
    }
    assert(t1 =~= t2);
}

/// At a mismatch, no occurrence can start strictly between the current
/// window and the entry's border: such a start would name a border of
/// the matched prefix above the entry, whose next element then agrees
/// with the pattern's — against the mismatch.
proof fn lemma_skip_safe<T>(q: Seq<T>, t: Seq<T>, j: int, k: int, x: int, s: int)
    requires
        0 <= k <= j < t.len(),
        k < q.len(),
        q.take(k) == t.subrange(j - k, j),
        q[k] != t[j],
        -1 <= x,
        forall|b: int| #[trigger] is_border(q, k, b) && b > x ==> q[b] == q[k],
        j - k <= s < j - x,
    ensures
        !occurs_at(t, q, s),
{
    if occurs_at(t, q, s) {
        let b = j - s;
        assert(t.subrange(s, s + q.len())[b] == q[b]);
        assert(t[j] == q[b]);
        if b == 0 {
            // The occurrence would start at the mismatch itself.
            if k >= 1 {
                lemma_zero_border(q, k);
                assert(q[0] == q[k]);
            }
            assert(false);
        } else if b == k {
            assert(false);
        } else {
            let t1 = q.take(b);
            let t2 = q.subrange(k - b, k);
            assert forall|i: int| 0 <= i < t1.len() implies t1[i] == t2[i] by {
                assert(t.subrange(s, s + q.len())[i] == q[i]);
                assert(t[s + i] == q[i]);
                assert(q.take(k)[k - b + i] == t.subrange(j - k, j)[k - b + i]);
                assert(q.take(k)[k - b + i] == q[k - b + i]);
                assert(t.subrange(j - k, j)[k - b + i] == t[j - k + (k - b + i)]);
                assert(j - k + (k - b + i) == s + i);
                assert(t[s + i] == q[k - b + i]);
            }
            assert(t1 =~= t2);
            assert(is_border(q, k, b));
            assert(q[b] == q[k]);
            assert(false);
        }
    }
}

/// After a full match, no occurrence can start strictly between the
/// match and its longest border's continuation: such a start would name
/// a border of the whole pattern above the longest one.
proof fn lemma_match_skip_safe<T>(q: Seq<T>, t: Seq<T>, j: int, x: int, s: int)
    requires
        1 <= q.len() <= j <= t.len(),
        q == t.subrange(j - q.len(), j),
        0 <= x,
        forall|b: int| #[trigger] is_border(q, q.len() as int, b) ==> b <= x,
        j - q.len() < s < j - x,
    ensures
        !occurs_at(t, q, s),
{
    let n = q.len() as int;
    if occurs_at(t, q, s) {
        let b = j - s;
        let t1 = q.take(b);
        let t2 = q.subrange(n - b, n);
        assert forall|i: int| 0 <= i < t1.len() implies t1[i] == t2[i] by {
            assert(t.subrange(s, s + q.len())[i] == q[i]);
            assert(t.subrange(j - n, j)[n - b + i] == q[n - b + i]);
            assert(t[s + i] == q[i]);
            assert(t[s + i] == q[n - b + i]);
        }
        assert(t1 =~= t2);
        assert(is_border(q, n, b));
        assert(false);
    }
}

/// The views of a sequence of strings.
pub open spec fn str_seq_view(ss: Seq<String>) -> Seq<Seq<char>> {
    ss.map_values(|s: String| s@)
}

/// Build the KMP failure table over a pattern of words.
pub fn kmp_table(query_words: &Vec<String>) -> (table: Vec<i32>)
    requires
        1 <= query_words@.len() < 0x7FFF_FFFF,
    ensures
        kmp_table_wf(str_seq_view(query_words@), table@),
        table@[0] == -1,
{
    let ghost q = str_seq_view(query_words@);
    let n = query_words.len();
    let mut table: Vec<i32> = Vec::new();
    while table.len() < n + 1
        invariant
            n < 0x7FFF_FFFF,
            table@.len() <= n + 1,
            forall|k: int| 0 <= k < table@.len() ==> #[trigger] table@[k] == 0i32,
        decreases n + 1 - table@.len(),
    {
        table.push(0);
    }
    table.set(0, -1);
    proof {
        lemma_zero_border(q, 1);
    }
    let mut pos: usize = 1;
    let mut cnd: i32 = 0;

    while pos < n
        invariant
            n == query_words@.len(),
            q == str_seq_view(query_words@),
            1 <= n < 0x7FFF_FFFF,
            1 <= pos <= n,
            0 <= cnd < pos,
            table@.len() == n + 1,
            table@[0] == -1,
            is_border(q, pos as int, cnd as int) || cnd == 0,
            forall|b: int| #[trigger] is_border(q, pos as int, b) ==> b <= cnd,
            forall|k: int| 0 <= k < table@.len() ==> -1 <= #[trigger] table@[k] < k,
            forall|k: int|
                1 <= k < pos && #[trigger] table@[k] >= 0 ==> is_border(
                    q,
                    k,
                    table@[k] as int,
                ) && q[table@[k] as int] != q[k],
            forall|k: int, b: int|
                1 <= k < pos && #[trigger] is_border(q, k, b) && b > table@[k] ==> q[b]
                    == q[k],
        decreases n - pos,
    {
        proof {
            assert(q[pos as int] == query_words@[pos as int]@);
            assert(q[cnd as int] == query_words@[cnd as int]@);
            lemma_zero_border(q, pos as int);
        }
        if query_words[pos] == query_words[cnd as usize] {
            // The longest border extends; its own failure entry carries
            // over, since the next elements agree.
            let b = table[cnd as usize];
            table.set(pos, b);
            proof {
                if b >= 0 {
                    lemma_border_trans(q, pos as int, cnd as int, b as int);
                }
                assert forall|bb: int| #[trigger]
                    is_border(q, pos as int, bb) && bb > b implies q[bb] == q[pos as int] by {
                    if bb == cnd {
                    } else {
                        assert(bb < cnd);
                        lemma_two_borders(q, pos as int, bb, cnd as int);
                        if cnd >= 1 {
                            assert(q[bb] == q[cnd as int]);
                        }
                    }
                }
            }
        } else {
            // The longest border's next element differs: it is the entry.
            table.set(pos, cnd);
            proof {
                assert forall|e: int| #[trigger]
                    is_border(q, pos + 1, e) implies e <= cnd + 1 by {
                    if e >= 1 {
                        lemma_border_shrink(q, pos as int, e);
                    }
                }
            }
            while cnd >= 0 && query_words[pos] != query_words[cnd as usize]
                invariant
                    n == query_words@.len(),
                    q == str_seq_view(query_words@),
                    1 <= pos < n,
                    -1 <= cnd < pos,
                    table@.len() == n + 1,
                    table@[0] == -1,
                    cnd >= 0 ==> is_border(q, pos as int, cnd as int) || cnd == 0,
                    forall|e: int| #[trigger] is_border(q, pos + 1, e) ==> e <= cnd + 1,
                    forall|k: int| 0 <= k < table@.len() ==> -1 <= #[trigger] table@[k] < k,
                    forall|k: int|
                        1 <= k <= pos && #[trigger] table@[k] >= 0 ==> is_border(
                            q,
                            k,
                            table@[k] as int,
                        ) && q[table@[k] as int] != q[k],
                    forall|k: int, b: int|
                        1 <= k <= pos && #[trigger] is_border(q, k, b) && b > table@[k]
                            ==> q[b] == q[k],
                decreases cnd + 1,
            {
                proof {
                    assert(q[pos as int] == query_words@[pos as int]@);
                    assert(q[cnd as int] == query_words@[cnd as int]@);
                }
                let b = table[cnd as usize];
                proof {
                    assert forall|e: int| #[trigger]
                        is_border(q, pos + 1, e) implies e <= b + 1 by {
                        if e >= 1 {
                            lemma_border_shrink(q, pos as int, e);
                            assert(e - 1 <= cnd);
                            if e - 1 == cnd {
                                assert(q[cnd as int] == q[pos as int]);
                                assert(false);
                            }
                            if cnd >= 1 {
                                lemma_two_borders(q, pos as int, e - 1, cnd as int);
                                assert(is_border(q, cnd as int, e - 1));
                                if e - 1 > b {
                                    assert(q[e - 1] == q[cnd as int]);
                                    assert(false);
                                }
                            } else {
                                assert(e - 1 < cnd);
                                assert(false);
                            }
                        }
                    }
                    if b >= 0 {
                        // The entry of a nonempty prefix names one of its
                        // borders, which is then a border here too.
                        assert(cnd >= 1);
                        assert(is_border(q, cnd as int, b as int));
                        assert(is_border(q, pos as int, cnd as int));
                        lemma_border_trans(q, pos as int, cnd as int, b as int);
                    }
                }
                cnd = b;
            }
        }
        proof {
            lemma_zero_border(q, pos + 1);
            if cnd >= 0 {
                assert(q[pos as int] == query_words@[pos as int]@);
                assert(q[cnd as int] == query_words@[cnd as int]@);
                lemma_border_extend(q, pos as int, cnd as int);
                assert forall|e: int| #[trigger]
                    is_border(q, pos + 1, e) implies e <= cnd + 1 by {
                    if e >= 1 {
                        lemma_border_shrink(q, pos as int, e);
                    }
                }
            }
        }
        pos += 1;
        cnd = cnd + 1;
    }
    proof {
        lemma_zero_border(q, pos as int);
    }
    table.set(pos, cnd);
    table
}

/// Build the KMP failure table over a pattern of characters.
pub fn kmp_table_chars(query: &String) -> (table: Vec<i32>)
    requires
        1 <= query@.len() < 0x7FFF_FFFF,
    ensures
        kmp_table_wf(query@, table@),
        table@[0] == -1,
{
    let query = str_chars(query.as_str());
    let ghost q = query@;
    let n = query.len();
    let mut table: Vec<i32> = Vec::new();
    while table.len() < n + 1
        invariant
            n < 0x7FFF_FFFF,
            table@.len() <= n + 1,
            forall|k: int| 0 <= k < table@.len() ==> #[trigger] table@[k] == 0i32,
        decreases n + 1 - table@.len(),
    {
        table.push(0);
    }
    table.set(0, -1);
    proof {
        lemma_zero_border(q, 1);
    }
    let mut pos: usize = 1;
    let mut cnd: i32 = 0;

    while pos < n
        invariant
            n == query@.len(),
            q == query@,
            1 <= n < 0x7FFF_FFFF,
            1 <= pos <= n,
            0 <= cnd < pos,
            table@.len() == n + 1,
            table@[0] == -1,
            is_border(q, pos as int, cnd as int) || cnd == 0,
            forall|b: int| #[trigger] is_border(q, pos as int, b) ==> b <= cnd,
            forall|k: int| 0 <= k < table@.len() ==> -1 <= #[trigger] table@[k] < k,
            forall|k: int|
                1 <= k < pos && #[trigger] table@[k] >= 0 ==> is_border(
                    q,
                    k,
                    table@[k] as int,
                ) && q[table@[k] as int] != q[k],
            forall|k: int, b: int|
                1 <= k < pos && #[trigger] is_border(q, k, b) && b > table@[k] ==> q[b]
                    == q[k],
        decreases n - pos,
    {
        proof {
            lemma_zero_border(q, pos as int);
        }
        if query[pos] == query[cnd as usize] {
            // The longest border extends; its own failure entry carries
            // over, since the next elements agree.
            let b = table[cnd as usize];
            table.set(pos, b);
            proof {
                if b >= 0 {
                    lemma_border_trans(q, pos as int, cnd as int, b as int);
                }
                assert forall|bb: int| #[trigger]
                    is_border(q, pos as int, bb) && bb > b implies q[bb] == q[pos as int] by {
                    if bb == cnd {
                    } else {
                        assert(bb < cnd);
                        lemma_two_borders(q, pos as int, bb, cnd as int);
                        if cnd >= 1 {
                            assert(q[bb] == q[cnd as int]);
                        }
                    }
                }
            }
        } else {
            // The longest border's next element differs: it is the entry.
            table.set(pos, cnd);
            proof {
                assert forall|e: int| #[trigger]
                    is_border(q, pos + 1, e) implies e <= cnd + 1 by {
                    if e >= 1 {
                        lemma_border_shrink(q, pos as int, e);
                    }
                }
            }
            while cnd >= 0 && query[pos] != query[cnd as usize]
                invariant
                    n == query@.len(),
                    q == query@,
                    1 <= pos < n,
                    -1 <= cnd < pos,
                    table@.len() == n + 1,
                    table@[0] == -1,
                    cnd >= 0 ==> is_border(q, pos as int, cnd as int) || cnd == 0,
                    forall|e: int| #[trigger] is_border(q, pos + 1, e) ==> e <= cnd + 1,
                    forall|k: int| 0 <= k < table@.len() ==> -1 <= #[trigger] table@[k] < k,
                    forall|k: int|
                        1 <= k <= pos && #[trigger] table@[k] >= 0 ==> is_border(
                            q,
                            k,
                            table@[k] as int,
                        ) && q[table@[k] as int] != q[k],
                    forall|k: int, b: int|
                        1 <= k <= pos && #[trigger] is_border(q, k, b) && b > table@[k]
                            ==> q[b] == q[k],
                decreases cnd + 1,
            {
                let b = table[cnd as usize];
                proof {
                    assert forall|e: int| #[trigger]
                        is_border(q, pos + 1, e) implies e <= b + 1 by {
                        if e >= 1 {
                            lemma_border_shrink(q, pos as int, e);
                            assert(e - 1 <= cnd);
                            if e - 1 == cnd {
                                assert(q[cnd as int] == q[pos as int]);
                                assert(false);
                            }
                            if cnd >= 1 {
                                lemma_two_borders(q, pos as int, e - 1, cnd as int);
                                assert(is_border(q, cnd as int, e - 1));
                                if e - 1 > b {
                                    assert(q[e - 1] == q[cnd as int]);
                                    assert(false);
                                }
                            } else {
                                assert(e - 1 < cnd);
                                assert(false);
                            }
                        }
                    }
                    if b >= 0 {
                        // The entry of a nonempty prefix names one of its
                        // borders, which is then a border here too.
                        assert(cnd >= 1);
                        assert(is_border(q, cnd as int, b as int));
                        assert(is_border(q, pos as int, cnd as int));
                        lemma_border_trans(q, pos as int, cnd as int, b as int);
                    }
                }
                cnd = b;
            }
        }
        proof {
            lemma_zero_border(q, pos + 1);
            if cnd >= 0 {
                lemma_border_extend(q, pos as int, cnd as int);
                assert forall|e: int| #[trigger]
                    is_border(q, pos + 1, e) implies e <= cnd + 1 by {
                    if e >= 1 {
                        lemma_border_shrink(q, pos as int, e);
                    }
                }
            }
        }
        pos += 1;
        cnd = cnd + 1;
    }
    proof {
        lemma_zero_border(q, pos as int);
    }
    table.set(pos, cnd);
    table
}

/// The characters of a string slice.
pub fn str_chars(s: &str) -> (r: Vec<char>)
    ensures
        r@ == s@,
{
    let n = s.unicode_len();
    let mut r: Vec<char> = Vec::new();
    let mut i: usize = 0;
    while i < n
        invariant
            i <= n,
            n == s@.len(),
            r@ == s@.take(i as int),
        decreases n - i,
    {
        r.push(s.get_char(i));
        proof {
            assert(s@.take(i + 1) =~= s@.take(i as int).push(s@[i as int]));
        }
        i += 1;
    }
    proof {
        assert(s@.take(n as int) =~= s@);
    }
    r
}

/// Scan the text for the first full occurrence of the pattern, by
/// characters: the position of the leftmost occurrence, or `None`
/// exactly when the pattern does not occur.
pub fn kmp_truefalse(file_contents: String, query: &String, table: &Vec<i32>) -> (result: Option<
    usize,
>)
    requires
        query@.len() >= 1,
        kmp_table_wf(query@, table@),
    ensures
        match result {
            Some(pos) => occurs_at(file_contents@, query@, pos as int) && forall|s: int|
                0 <= s < pos ==> !occurs_at(file_contents@, query@, s),
            None => forall|s: int| !occurs_at(file_contents@, query@, s),
        },
{
    let mut j: usize = 0;
    let mut k: usize = 0;

    let file_vec = str_chars(file_contents.as_str());
    let p = str_chars(query.as_str());
    let n = p.len();
    let m = file_vec.len();

    while j < m
        invariant
            n == query@.len(),
            m == file_contents@.len(),
            p@ == query@,
            file_vec@ == file_contents@,
            n >= 1,
            kmp_table_wf(query@, table@),
            k <= j <= m,
            k < n,
            query@.take(k as int) == file_contents@.subrange(j - k, j as int),
            forall|s: int| 0 <= s < j - k ==> !occurs_at(file_contents@, query@, s),
        decreases m - j, k,
    {
        if p[k] == file_vec[j] {
            proof {
                lemma_border_extend_text(query@, file_contents@, j as int, k as int);
            }
            j += 1;
            k += 1;
            if k == p.len() {
                proof {
                    assert(query@.take(n as int) =~= query@);
                    assert(occurs_at(file_contents@, query@, (j - k) as int));
                }
                return Some(j - k);
            }
        } else {
            let x = table[k];
            proof {
                assert forall|s: int|
                    0 <= s < j - x implies !occurs_at(file_contents@, query@, s) by {
                    if s >= j - k {
                        if s == j - k {
                            if occurs_at(file_contents@, query@, s) {
                                assert(file_contents@.subrange(s, s + query@.len())[k as int]
                                    == query@[k as int]);
                            }
                        } else {
                            assert forall|b: int| #[trigger]
                                is_border(query@, k as int, b) && b > x implies query@[b]
                                == query@[k as int] by {}
                            lemma_skip_safe(
                                query@,
                                file_contents@,
                                j as int,
                                k as int,
                                x as int,
                                s,
                            );
                        }
                    }
                }
            }
            if x == -1 {
                proof {
                    assert(query@.take(0) =~= file_contents@.subrange(j + 1, j + 1));
                }
                j += 1;
                k = 0;
            } else {
                proof {
                    lemma_fallback_partial(query@, file_contents@, j as int, k as int, x as int);
                }
                k = x as usize;
            }
        }
    }
    proof {
        assert forall|s: int| !occurs_at(file_contents@, query@, s) by {
            if occurs_at(file_contents@, query@, s) {
                assert(0 <= s && s + query@.len() <= m);
            }
        }
    }
    None
}

/// A matched prefix extended by one equal character.
proof fn lemma_border_extend_text<T>(q: Seq<T>, t: Seq<T>, j: int, k: int)
    requires
        0 <= k <= j < t.len(),
        k < q.len(),
        q.take(k) == t.subrange(j - k, j),
        q[k] == t[j],
    ensures
        q.take(k + 1) == t.subrange(j + 1 - (k + 1), j + 1),
{
    let t1 = q.take(k + 1);
    let t2 = t.subrange(j - k, j + 1);
    assert forall|i: int| 0 <= i < t1.len() implies t1[i] == t2[i] by {
        if i < k {
            assert(q.take(k)[i] == t.subrange(j - k, j)[i]);
        }
    }
    assert(t1 =~= t2);
}

/// Falling back to a border keeps a matched prefix.
proof fn lemma_fallback_partial<T>(q: Seq<T>, t: Seq<T>, j: int, k: int, x: int)
    requires
        0 <= k <= j <= t.len(),
        k <= q.len(),
        q.take(k) == t.subrange(j - k, j),
        is_border(q, k, x),
    ensures
        q.take(x) == t.subrange(j - x, j),
{
    assert(q.take(x) == q.subrange(k - x, k));
    let t1 = q.take(x);
    let t2 = t.subrange(j - x, j);
    assert forall|i: int| 0 <= i < t1.len() implies t1[i] == t2[i] by {
        assert(q.take(x)[i] == q.subrange(k - x, k)[i]);
        assert(q.take(k)[k - x + i] == t.subrange(j - k, j)[k - x + i]);
        assert(q.take(x)[i] == q[i]);
        assert(q.subrange(k - x, k)[i] == q[k - x + i]);
        assert(q.take(k)[k - x + i] == q[k - x + i]);
        assert(t.subrange(j - k, j)[k - x + i] == t[j - k + (k - x + i)]);
        assert(t2[i] == t[j - x + i]);
    }
    assert(t1 =~= t2);
}

/// Scan the text for every occurrence of the pattern, by whitespace
/// words: the strictly increasing list of exactly the token positions
/// where the pattern occurs, overlapping occurrences included.
pub fn kmp_allmatches(file_contents: String, query_words: &Vec<String>, table: &Vec<i32>) -> (
    result: Vec<usize>)
    requires
        query_words@.len() >= 1,
        file_contents@.len() < usize::MAX,
        kmp_table_wf(str_seq_view(query_words@), table@),
    ensures
        sorted_strict(result@),
        forall|i: int|
            0 <= i < result@.len() ==> occurs_at(
                split_ws(file_contents@),
                str_seq_view(query_words@),
                #[trigger] result@[i] as int,
            ),
        forall|x: usize|
            occurs_at(
                split_ws(file_contents@),
                str_seq_view(query_words@),
                x as int,
            ) ==> #[trigger] result@.contains(x),
{
    let mut result: Vec<usize> = Vec::new();
    let mut j: usize = 0;
    let mut k: usize = 0;

    let file_vec = split_whitespace_words(file_contents.as_str());
    let ghost tv = split_ws(file_contents@);
    let ghost qv = str_seq_view(query_words@);
    let n = query_words.len();
    let m = file_vec.len();

    while j < m
        invariant
            n == qv.len(),
            m == tv.len(),
            n >= 1,
            str_seq_view(file_vec@) == tv,
            str_seq_view(query_words@) == qv,
            tv == split_ws(file_contents@),
            kmp_table_wf(qv, table@),
            k <= j <= m,
            k < n,
            qv.take(k as int) == tv.subrange(j - k, j as int),
            sorted_strict(result@),
            forall|i: int|
                0 <= i < result@.len() ==> occurs_at(tv, qv, #[trigger] result@[i] as int),
            forall|i: int| 0 <= i < result@.len() ==> #[trigger] result@[i] + n <= j,
            forall|x: usize|
                occurs_at(tv, qv, x as int) && (x as int) < j - k ==> #[trigger] result@.contains(
                    x,
                ),
        decreases m - j, k,
    {
        proof {
            assert(qv[k as int] == query_words@[k as int]@);
            assert(tv[j as int] == file_vec@[j as int]@);
        }
        if query_words[k] == file_vec[j] {
            proof {
                lemma_border_extend_text(qv, tv, j as int, k as int);
            }
            j += 1;
            k += 1;
            if k == query_words.len() {
                proof {
                    assert(qv.take(n as int) =~= qv);
                    assert(occurs_at(tv, qv, j - k));
                    assert forall|i: int|
                        0 <= i < result@.len() implies #[trigger] result@[i] < (j - k) by {}
                }
                let ghost pre = result@;
                result.push(j - k);
                let x2 = table[n];
                proof {
                    assert(result@ == pre.push((j - k) as usize));
                    lemma_fallback_partial(qv, tv, j as int, k as int, x2 as int);
                    assert forall|x: usize|
                        occurs_at(tv, qv, x as int) && (x as int) < j - x2 implies
                        #[trigger] result@.contains(x) by {
                        if (x as int) < j - k {
                            assert(pre.contains(x));
                            let i = choose|i: int| 0 <= i < pre.len() && pre[i] == x;
                            assert(result@[i] == x);
                        } else if (x as int) == j - k {
                            assert(result@[result@.len() - 1] == x);
                        } else {
                            assert(qv == tv.subrange(j - n, j as int));
                            lemma_match_skip_safe(qv, tv, j as int, x2 as int, x as int);
                        }
                    }
                }
                k = x2 as usize;
            }
        } else {
            let x = table[k];
            proof {
                assert forall|s: int| 0 <= s < j - x implies !occurs_at(tv, qv, s) || (0 <= s
                    < j - k && occurs_at(tv, qv, s)) by {
                    if s >= j - k {
                        if s == j - k {
                            if occurs_at(tv, qv, s) {
                                assert(tv.subrange(s, s + qv.len())[k as int]
                                    == qv[k as int]);
                            }
                        } else {
                            assert forall|b: int| #[trigger]
                                is_border(qv, k as int, b) && b > x implies qv[b]
                                == qv[k as int] by {}
                            lemma_skip_safe(qv, tv, j as int, k as int, x as int, s);
                        }
                    }
                }
            }
            if x == -1 {
                proof {
                    assert(qv.take(0) =~= tv.subrange(j + 1, j + 1));
                }
                j += 1;
                k = 0;
            } else {
                proof {
                    lemma_fallback_partial(qv, tv, j as int, k as int, x as int);
                }
                k = x as usize;
            }
        }
    }
    proof {
        assert forall|x: usize| occurs_at(tv, qv, x as int) implies #[trigger] result@.contains(
            x,
        ) by {
            assert((x as int) + qv.len() <= m);
        }
    }
    result
}

/// An ASCII whitespace character.
pub open spec fn is_ws(c: char) -> bool {
    c == ' ' || c == '\t' || c == '\n' || c == '\r' || c == '\x0c'
}

/// The length of the whitespace-free run at the head of `s`.
pub open spec fn ws_word_len(s: Seq<char>) -> nat
    decreases s.len(),
{
    if s.len() > 0 && !is_ws(s[0]) {
        1 + ws_word_len(s.drop_first())
    } else {
        0
    }
}

/// The whitespace-separated words of a character sequence.
pub open spec fn split_ws(s: Seq<char>) -> Seq<Seq<char>>
    decreases s.len(),
{
    if s.len() == 0 {
        Seq::empty()
    } else if is_ws(s[0]) {
        split_ws(s.drop_first())
    } else {
        let wl = if ws_word_len(s) <= s.len() {
            ws_word_len(s) as int
        } else {
            s.len() as int
        };
        seq![s.take(wl)] + split_ws(s.skip(wl))
    }
}

/// The end of the whitespace-free run starting at position `i` of `s`.
fn scan_ws_word(s: &str, i: usize) -> (j: usize)
    requires
        i <= s@.len(),
        s@.len() < usize::MAX,
    ensures
        i <= j <= s@.len(),
        j - i == ws_word_len(s@.skip(i as int)),
    decreases s@.len() - i,
{
    let n = s.unicode_len();
    if i < n {
        let c = s.get_char(i);
        if !(c == ' ' || c == '\t' || c == '\n' || c == '\r' || c == '\x0c') {
            proof {
                assert(s@.skip(i as int)[0] == s@[i as int]);
                assert(s@.skip(i as int).drop_first() =~= s@.skip(i + 1));
            }
            return scan_ws_word(s, i + 1);
        }
    }
    proof {
        if i < s@.len() {
            assert(s@.skip(i as int)[0] == s@[i as int]);
        } else {
            assert(s@.skip(i as int).len() == 0);
        }
    }
    i
}

/// Cut a string into its whitespace-separated words.
pub fn split_whitespace_words(s: &str) -> (words: Vec<String>)
    requires
        s@.len() < usize::MAX,
    ensures
        str_seq_view(words@) == split_ws(s@),
{
    let mut words: Vec<String> = Vec::new();
    let n = s.unicode_len();
    proof {
        assert(s@.skip(0) =~= s@);
        assert(str_seq_view(Seq::<String>::empty()) + split_ws(s@) =~= split_ws(s@));
    }
    let mut i: usize = 0;
    while i < n
        invariant
            i <= n,
            n == s@.len(),
            s@.len() < usize::MAX,
            str_seq_view(words@) + split_ws(s@.skip(i as int)) == split_ws(s@),
        decreases n - i,
    {
        let ghost pre = words@;
        let c = s.get_char(i);
        proof {
            assert(s@.skip(i as int)[0] == s@[i as int]);
            assert(s@.skip(i as int).drop_first() =~= s@.skip(i + 1));
        }
        if c == ' ' || c == '\t' || c == '\n' || c == '\r' || c == '\x0c' {
            i += 1;
        } else {
            let j = scan_ws_word(s, i);
            let word = s.substring_char(i, j).to_owned();
            proof {
                assert(word@ =~= s@.skip(i as int).take(ws_word_len(s@.skip(i as int)) as int));
                assert(s@.skip(i as int).skip(ws_word_len(s@.skip(i as int)) as int) =~= s@.skip(
                    j as int,
                ));
                assert(str_seq_view(pre.push(word)) =~= str_seq_view(pre) + seq![word@]);
            }
            words.push(word);
            proof {
                assert(str_seq_view(words@) + split_ws(s@.skip(j as int)) =~= split_ws(s@));
            }
            i = j;
        }
    }
    proof {
        assert(s@.skip(n as int).len() == 0);
        assert(str_seq_view(words@) =~= str_seq_view(words@) + split_ws(s@.skip(n as int)));
    }
    words
}

impl Index<WordMap> {
    /// Build the phrase-search index from an article stream: the same
    /// list-encoded vocabulary as the boolean index.
    pub fn index10(articles: &Vec<(String, Vec<String>)>) -> (result: Index<WordMap>)
        ensures
            result.wf(),
            (result.database@, result.article_titles@)
                == crate::index::index8_0::build_index_spec(
                Map::<Seq<char>, Seq<usize>>::empty(),
                Seq::<String>::empty(),
                articles@,
            ),
    {
        Index::index8(articles)
    }

    /// The titles of the articles holding `query` as a single word.
    pub fn single_search(&self, query: &String) -> (result: ArticleTitles)
        requires
            self.wf(),
        ensures
            result@ == ids_to_titles(
                postings_of(self.database@, query@),
                self.article_titles@,
            ),
    {
        let ids = self.database.get_or_empty(query.as_str());
        self.vec_to_articlelist(ids)
    }
}

/// The candidate set of an exact phrase query: the articles whose
/// postings hold every query word from position `i` on.
pub open spec fn phrase_cands(
    db: Map<Seq<char>, Seq<usize>>,
    words: Seq<Seq<char>>,
    i: int,
) -> Set<usize>
    decreases words.len() - i,
{
    if i < 0 || i >= words.len() {
        Set::empty()
    } else if i == words.len() - 1 {
        postings_of(db, words[i]).to_set()
    } else {
        postings_of(db, words[i]).to_set().intersect(phrase_cands(db, words, i + 1))
    }
}

impl Index<WordMap> {
    /// Filter the phrase-match candidates: the strictly increasing list
    /// of the articles whose postings hold every one of the query's
    /// words.  This is a containment prefilter, not a positional check;
    /// the matchers verify each candidate against its stored text.
    pub fn phrase_candidates(&self, query_words: &Vec<String>) -> (result: Vec<usize>)
        requires
            self.wf(),
        ensures
            sorted_strict(result@),
            bounded_by(result@, self.article_titles@.len() as nat),
            query_words@.len() == 0 ==> result@.len() == 0,
            query_words@.len() > 0 ==> result@.to_set() == phrase_cands(
                self.database@,
                str_seq_view(query_words@),
                0,
            ),
    {
        let ghost wv = str_seq_view(query_words@);
        if query_words.len() == 0 {
            return Vec::new();
        }
        let n = query_words.len();
        let mut k = n - 1;
        let mut acc = self.database.get_or_empty(query_words[k].as_str());
        proof {
            assert(wv[k as int] == query_words@[k as int]@);
            assert(acc@.to_set() == phrase_cands(self.database@, wv, k as int));
        }
        while k > 0
            invariant
                n == query_words@.len(),
                1 <= n,
                k <= n - 1,
                wv == str_seq_view(query_words@),
                self.wf(),
                sorted_strict(acc@),
                bounded_by(acc@, self.article_titles@.len() as nat),
                acc@.to_set() == phrase_cands(self.database@, wv, k as int),
            decreases k,
        {
            k -= 1;
            proof {
                assert(wv[k as int] == query_words@[k as int]@);
            }
            let lst = self.database.get_or_empty(query_words[k].as_str());
            let next = self.and(lst, acc);
            proof {
                assert(next@.to_set() =~= phrase_cands(self.database@, wv, k as int));
                assert forall|i: int|
                    0 <= i < next@.len() implies (#[trigger] next@[i])
                    < self.article_titles@.len() by {
                    assert(next@.contains(next@[i]));
                    assert(postings_of(self.database@, wv[k as int]).contains(next@[i]));
                    let m = choose|m: int|
                        0 <= m < postings_of(self.database@, wv[k as int]).len()
                            && postings_of(self.database@, wv[k as int])[m] == next@[i];
                }
            }
            acc = next;
        }
        acc
    }
}

} // verus!
