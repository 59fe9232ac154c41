//! The prefix trie index, with each node's children held in an
//! association list: a hash map keyed by characters has no usable
//! specification here, and the list keeps the same unique-key reading.
//!
//! A path from the root spells a word; a terminal node holds the postings
//! of that exact word.  Exact lookup walks the path; prefix lookup walks
//! the literal part and then unions every postings set in the subtree.
//! A missing path yields an empty result, never an error.
use vstd::prelude::*;

use crate::index::index7::{
    bit_of, bits_set, bitvec_ids, blocks_for, blocks_needed, lemma_id_block, list_to_bitvec,
    or_blocks, pad_blocks, titles_of_ids,
};
use crate::index::{appended, ids_to_titles, postings_of, ArticleTitles, Index, Query, Search, SearchType};
use crate::lemma_sorted_list_of;
use crate::sorted_list_of;

verus! {

pub struct TrieNode {
    pub children_map: Vec<(char, TrieNode)>,
    pub article_vec: Option<Vec<usize>>,
}

/// Each node's children carry distinct characters.
pub open spec fn node_wf(node: TrieNode) -> bool
    decreases node,
{
    &&& forall|a: int, b: int|
        0 <= a < b < node.children_map@.len() ==> (#[trigger] node.children_map@[a]).0 != (
        #[trigger] node.children_map@[b]).0
    &&& forall|k: int|
        0 <= k < node.children_map@.len() ==> node_wf(#[trigger] node.children_map@[k].1)
}

pub open spec fn has_child(children: Seq<(char, TrieNode)>, c: char) -> bool {
    exists|k: int| 0 <= k < children.len() && (#[trigger] children[k]).0 == c
}

pub open spec fn child_index(children: Seq<(char, TrieNode)>, c: char) -> int {
    choose|k: int| 0 <= k < children.len() && (#[trigger] children[k]).0 == c
}

/// The postings stored for the word `w` below `node`, when that exact
/// path ends at a terminal.
pub open spec fn node_lookup(node: TrieNode, w: Seq<char>) -> Option<Seq<usize>>
    decreases w.len(),
{
    if w.len() == 0 {
        match node.article_vec {
            Some(v) => Some(v@),
            None => None,
        }
    } else if has_child(node.children_map@, w[0]) {
        node_lookup(
            node.children_map@[child_index(node.children_map@, w[0])].1,
            w.drop_first(),
        )
    } else {
        None
    }
}

/// The set of articles the word `w` names below `node`.
pub open spec fn lookup_set(node: TrieNode, w: Seq<char>) -> Set<usize> {
    match node_lookup(node, w) {
        Some(v) => v.to_set(),
        None => Set::empty(),
    }
}

/// The articles stored at the node itself.
pub open spec fn own_set(node: TrieNode) -> Set<usize> {
    match node.article_vec {
        Some(v) => v@.to_set(),
        None => Set::empty(),
    }
}

/// Every article stored anywhere in the subtree: the union of the
/// postings of every word below `node`.
pub open spec fn subtree_set(node: TrieNode) -> Set<usize> {
    Set::new(|x: usize| exists|w: Seq<char>| (#[trigger] lookup_set(node, w)).contains(x))
}

/// The node the literal path `w` leads to.
pub open spec fn node_walk(node: TrieNode, w: Seq<char>) -> Option<TrieNode>
    decreases w.len(),
{
    if w.len() == 0 {
        Some(node)
    } else if has_child(node.children_map@, w[0]) {
        node_walk(
            node.children_map@[child_index(node.children_map@, w[0])].1,
            w.drop_first(),
        )
    } else {
        None
    }
}

/// The index of the first wildcard marker, or the length when none.
pub open spec fn first_star(s: Seq<char>) -> int
    decreases s.len(),
{
    if s.len() == 0 {
        0
    } else if s[0] == '*' {
        0
    } else {
        1 + first_star(s.drop_first())
    }
}

/// What a prefix query denotes: the subtree union at the end of the
/// literal path, the exact postings when there is no wildcard, nothing
/// when the path is missing.
pub open spec fn prefix_query_set(node: TrieNode, s: Seq<char>) -> Set<usize> {
    let k = first_star(s);
    if k == s.len() {
        lookup_set(node, s)
    } else {
        match node_walk(node, s.take(k)) {
            Some(nd) => subtree_set(nd),
            None => Set::empty(),
        }
    }
}

/// All stored article ids below `node` lie below `n`.
pub open spec fn node_bounded(node: TrieNode, n: nat) -> bool {
    forall|x: usize| #[trigger] subtree_set(node).contains(x) ==> x < n
}

/// A subtree holds its own postings and its children's subtrees, and
/// nothing else.
pub proof fn lemma_subtree_unfold(node: TrieNode)
    requires
        node_wf(node),
    ensures
        forall|x: usize|
            #[trigger] subtree_set(node).contains(x) <==> (own_set(node).contains(x) || exists|
                k: int,
            |
                0 <= k < node.children_map@.len() && subtree_set(
                    #[trigger] node.children_map@[k].1,
                ).contains(x)),
{
    assert forall|x: usize|
        #[trigger] subtree_set(node).contains(x) <==> (own_set(node).contains(x) || exists|
            k: int,
        |
            0 <= k < node.children_map@.len() && subtree_set(
                #[trigger] node.children_map@[k].1,
            ).contains(x)) by {
        if subtree_set(node).contains(x) {
            let w = choose|w: Seq<char>| (#[trigger] lookup_set(node, w)).contains(x);
            if w.len() == 0 {
                assert(own_set(node).contains(x));
            } else {
                let k = child_index(node.children_map@, w[0]);
                assert(has_child(node.children_map@, w[0]));
                assert(lookup_set(node.children_map@[k].1, w.drop_first()).contains(x));
                assert(subtree_set(node.children_map@[k].1).contains(x));
            }
        }
        if own_set(node).contains(x) {
            let w = Seq::<char>::empty();
            assert(lookup_set(node, w).contains(x));
            assert(subtree_set(node).contains(x));
        }
        if exists|k: int|
            0 <= k < node.children_map@.len() && subtree_set(
                #[trigger] node.children_map@[k].1,
            ).contains(x) {
            let k = choose|k: int|
                0 <= k < node.children_map@.len() && subtree_set(
                    #[trigger] node.children_map@[k].1,
                ).contains(x);
            let c = node.children_map@[k].0;
            let w = choose|w: Seq<char>|
                (#[trigger] lookup_set(node.children_map@[k].1, w)).contains(x);
            let w2 = seq![c] + w;
            assert(w2[0] == c);
            assert(has_child(node.children_map@, c));
            let k2 = child_index(node.children_map@, c);
            assert(node.children_map@[k2].0 == c);
            assert(k2 == k);
            assert(w2.drop_first() =~= w);
            assert(lookup_set(node, w2).contains(x));
            assert(subtree_set(node).contains(x));
        }
    }
}

/// Looking up a word through a walked prefix is one lookup of the whole
/// word.
pub proof fn lemma_walk_lookup(node: TrieNode, p: Seq<char>, w: Seq<char>)
    ensures
        node_lookup(node, p + w) == match node_walk(node, p) {
            Some(nd) => node_lookup(nd, w),
            None => None::<Seq<usize>>,
        },
    decreases p.len(),
{
    if p.len() == 0 {
        assert(p + w =~= w);
    } else {
        let pw = p + w;
        assert(pw[0] == p[0]);
        assert(pw.len() > 0);
        if has_child(node.children_map@, p[0]) {
            let k = child_index(node.children_map@, p[0]);
            assert(pw.drop_first() =~= p.drop_first() + w);
            lemma_walk_lookup(node.children_map@[k].1, p.drop_first(), w);
        }
    }
}

impl TrieNode {
    pub fn new() -> (node: TrieNode)
        ensures
            node.children_map@.len() == 0,
            node.article_vec is None,
            node_wf(node),
    {
        TrieNode { children_map: Vec::new(), article_vec: None }
    }

    /// Add an empty child for `char` at the end of the child list.
    pub fn insert_child(&mut self, char: char)
        ensures
            final(self).children_map@.len() == old(self).children_map@.len() + 1,
            final(self).children_map@.take(old(self).children_map@.len() as int) == old(
                self,
            ).children_map@,
            final(self).children_map@.last().0 == char,
            final(self).children_map@.last().1.children_map@.len() == 0,
            final(self).children_map@.last().1.article_vec is None,
            final(self).article_vec == old(self).article_vec,
    {
        let child = TrieNode::new();
        self.children_map.push((char, child));
        proof {
            assert(self.children_map@.take(old(self).children_map@.len() as int) =~= old(
                self,
            ).children_map@);
        }
    }
}

/// A node with no terminal and no children stores no word at all.
proof fn lemma_empty_node_lookup(node: TrieNode, w: Seq<char>)
    requires
        node.children_map@.len() == 0,
        node.article_vec is None,
    ensures
        node_lookup(node, w) is None,
{
}

/// Two nodes that agree on the terminal and on every child except the
/// one for `c`, which the second holds as `sub`, store the same words
/// except below `c`.
proof fn lemma_lookup_respects_children(
    n1: TrieNode,
    n2: TrieNode,
    c: char,
    sub: TrieNode,
    w: Seq<char>,
)
    requires
        n2.article_vec == n1.article_vec,
        forall|d: char|
            d != c ==> #[trigger] has_child(n2.children_map@, d) == has_child(
                n1.children_map@,
                d,
            ),
        forall|d: char|
            d != c && has_child(n1.children_map@, d) ==> #[trigger] child_at(
                n2.children_map@,
                d,
            ) == child_at(n1.children_map@, d),
        has_child(n2.children_map@, c),
        child_at(n2.children_map@, c) == sub,
    ensures
        w.len() == 0 ==> node_lookup(n2, w) == node_lookup(n1, w),
        w.len() > 0 && w[0] != c ==> node_lookup(n2, w) == node_lookup(n1, w),
        w.len() > 0 && w[0] == c ==> node_lookup(n2, w) == node_lookup(sub, w.drop_first()),
{
    if w.len() > 0 {
        let d = w[0];
        if d != c {
            if has_child(n1.children_map@, d) {
                assert(has_child(n2.children_map@, d));
                assert(child_at(n2.children_map@, d) == child_at(n1.children_map@, d));
                assert(node_lookup(n2, w) == node_lookup(
                    child_at(n2.children_map@, d),
                    w.drop_first(),
                ));
                assert(node_lookup(n1, w) == node_lookup(
                    child_at(n1.children_map@, d),
                    w.drop_first(),
                ));
            } else {
                assert(!has_child(n2.children_map@, d));
            }
        } else {
            assert(node_lookup(n2, w) == node_lookup(
                child_at(n2.children_map@, c),
                w.drop_first(),
            ));
        }
    }
}

/// The child a character leads to.
pub open spec fn child_at(children: Seq<(char, TrieNode)>, c: char) -> TrieNode {
    children[child_index(children, c)].1
}

/// Insert one occurrence: walk or create the path for the remaining
/// characters and append the article id at its terminal, unless it is
/// already the last entry.
fn node_insert(node: TrieNode, chars: &Vec<char>, pos: usize, article_number: usize) -> (res:
    TrieNode)
    requires
        node_wf(node),
        pos <= chars@.len(),
    ensures
        node_wf(res),
        node_lookup(res, chars@.skip(pos as int)) == Some(
            appended(stored_or_empty(node, chars@.skip(pos as int)), article_number),
        ),
        forall|w: Seq<char>|
            w != chars@.skip(pos as int) ==> #[trigger] node_lookup(res, w) == node_lookup(
                node,
                w,
            ),
    decreases chars@.len() - pos,
{
    let mut node = node;
    let ghost tail = chars@.skip(pos as int);
    if pos == chars.len() {
        proof {
            assert(tail.len() == 0);
        }
        let mut v = match node.article_vec {
            Some(v) => v,
            None => Vec::new(),
        };
        let ghost old_v = v@;
        if v.len() == 0 {
            v.push(article_number);
        } else {
            let last = v[v.len() - 1];
            if last != article_number {
                v.push(article_number);
            }
        }
        proof {
            assert(v@ =~= appended(old_v, article_number));
        }
        let res = TrieNode { children_map: node.children_map, article_vec: Some(v) };
        proof {
            assert forall|w: Seq<char>|
                w != tail implies #[trigger] node_lookup(res, w) == node_lookup(node, w) by {
                if w.len() == 0 {
                    assert(w =~= tail);
                }
                assert(w.len() != 0);
            }
        }
        res
    } else {
        let c = chars[pos];
        proof {
            assert(tail.len() > 0);
            assert(tail[0] == c);
        }
        let mut k: usize = 0;
        let mut found = false;
        while k < node.children_map.len() && !found
            invariant
                k <= node.children_map@.len(),
                found ==> k < node.children_map@.len() && node.children_map@[k as int].0 == c,
                forall|a: int| 0 <= a < k ==> (#[trigger] node.children_map@[a]).0 != c,
            decreases node.children_map@.len() - k + (if found {
                0int
            } else {
                1int
            }),
        {
            if node.children_map[k].0 == c {
                found = true;
            } else {
                k += 1;
            }
        }
        let ghost orig = node;
        if !found {
            // The character is new here: add an empty child for it.
            node.insert_child(c);
            proof {
                let m = orig.children_map@.len() as int;
                assert forall|a: int, b: int|
                    0 <= a < b < node.children_map@.len() implies (
                #[trigger] node.children_map@[a]).0 != (#[trigger] node.children_map@[b]).0 by {
                    if b < m {
                        assert(node.children_map@.take(m)[a] == node.children_map@[a]);
                        assert(node.children_map@.take(m)[b] == node.children_map@[b]);
                        assert(orig.children_map@[a].0 != orig.children_map@[b].0);
                    } else {
                        assert(node.children_map@.take(m)[a] == node.children_map@[a]);
                        assert(orig.children_map@[a].0 != c);
                    }
                }
                assert forall|j: int|
                    0 <= j < node.children_map@.len() implies node_wf(
                    #[trigger] node.children_map@[j].1,
                ) by {
                    let m = orig.children_map@.len() as int;
                    if j < m {
                        assert(node.children_map@.take(m)[j] == node.children_map@[j]);
                        assert(node_wf(orig.children_map@[j].1));
                    } else {
                        assert(node.children_map@[j].1.children_map@.len() == 0);
                    }
                }
                assert(node_wf(node));
                // Every lookup is unchanged: the new child stores nothing.
                assert forall|w: Seq<char>| true implies #[trigger] node_lookup(node, w)
                    == node_lookup(orig, w) by {
                    lemma_child_maps(orig.children_map@, node.children_map@, c);
                    if w.len() > 0 {
                        if w[0] == c {
                            assert(!has_child(orig.children_map@, c));
                            lemma_empty_node_lookup(child_at(node.children_map@, c), w.drop_first());
                            lemma_lookup_respects_children(
                                orig,
                                node,
                                c,
                                child_at(node.children_map@, c),
                                w,
                            );
                        } else {
                            lemma_lookup_respects_children(
                                orig,
                                node,
                                c,
                                child_at(node.children_map@, c),
                                w,
                            );
                        }
                    }
                }
                assert(has_child(node.children_map@, c));
            }
        }
        let kk = if found {
            k
        } else {
            node.children_map.len() - 1
        };
        proof {
            assert(node.children_map@[kk as int].0 == c);
            assert(has_child(node.children_map@, c));
            assert(node_wf(node));
        }
        let ghost before = node;
        let (ch, child) = node.children_map.swap_remove(kk);
        let sub = node_insert(child, chars, pos + 1, article_number);
        node.children_map.push((ch, sub));
        proof {
            // `child` is the unique child of `before` for `c`.
            assert(ch == c);
            assert(tail.drop_first() =~= chars@.skip(pos + 1));
            assert forall|j: int|
                0 <= j < before.children_map@.len() && (#[trigger] before.children_map@[j]).0
                    == c implies j == kk by {
                if j != kk {
                    if j < kk {
                        assert(before.children_map@[j].0 != before.children_map@[kk as int].0);
                    } else {
                        assert(before.children_map@[kk as int].0 != before.children_map@[j].0);
                    }
                }
            }
            assert(child_index(before.children_map@, c) == kk);
            assert(child == child_at(before.children_map@, c));
            assert(child_at(before.children_map@, c) == child);
            lemma_swap_replace(before.children_map@, node.children_map@, kk as int, sub);
            assert forall|j: int|
                0 <= j < node.children_map@.len() implies node_wf(
                #[trigger] node.children_map@[j].1,
            ) by {
                let cj = node.children_map@[j].0;
                if cj == c {
                    assert(node.children_map@[j] == (c, sub));
                } else {
                    assert(has_child(node.children_map@, cj));
                    assert(child_at(node.children_map@, cj) == child_at(
                        before.children_map@,
                        cj,
                    ));
                    let ji = child_index(before.children_map@, cj);
                    assert(node_wf(before.children_map@[ji].1));
                    let j2 = child_index(node.children_map@, cj);
                    assert(node.children_map@[j2].0 == cj);
                    assert(j2 == j);
                }
            }
            assert(node_wf(node));
            assert forall|w: Seq<char>|
                w != tail implies #[trigger] node_lookup(node, w) == node_lookup(
                before,
                w,
            ) by {
                lemma_lookup_respects_children(before, node, c, sub, w);
                if w.len() > 0 && w[0] == c {
                    assert(w.drop_first() != tail.drop_first()) by {
                        if w.drop_first() == tail.drop_first() {
                            assert forall|i: int| 0 <= i < w.len() implies w[i] == tail[i] by {
                                if i > 0 {
                                    assert(w.drop_first()[i - 1] == tail.drop_first()[i - 1]);
                                }
                            }
                            assert(w =~= tail);
                        }
                    }
                    assert(node_lookup(sub, w.drop_first()) == node_lookup(
                        child,
                        w.drop_first(),
                    ));
                    assert(node_lookup(before, w) == node_lookup(child, w.drop_first()));
                }
            }
            // And the inserted word gained exactly this occurrence.
            lemma_lookup_respects_children(before, node, c, sub, tail);
            assert(node_lookup(before, tail) == node_lookup(child, tail.drop_first()));
        }
        node
    }
}

/// After adding one child for a fresh character, the child map keeps all
/// other characters and sends `c` to the new last child.
proof fn lemma_child_maps(
    before: Seq<(char, TrieNode)>,
    after: Seq<(char, TrieNode)>,
    c: char,
)
    requires
        after.len() == before.len() + 1,
        after.take(before.len() as int) == before,
        after.last().0 == c,
        !has_child(before, c),
        forall|a: int, b: int|
            0 <= a < b < before.len() ==> (#[trigger] before[a]).0 != (#[trigger] before[b]).0,
    ensures
        has_child(after, c),
        child_at(after, c) == after.last().1,
        forall|d: char| d != c ==> #[trigger] has_child(after, d) == has_child(before, d),
        forall|d: char|
            d != c && has_child(before, d) ==> #[trigger] child_at(after, d) == child_at(
                before,
                d,
            ),
{
    let m = before.len() as int;
    assert(after[m].0 == c);
    assert(has_child(after, c));
    assert forall|j: int| 0 <= j < after.len() && (#[trigger] after[j]).0 == c implies j
        == m by {
        if j < m {
            assert(after.take(m)[j] == after[j]);
            assert(before[j].0 == c);
        }
    }
    assert(child_index(after, c) == m);
    assert forall|d: char| d != c implies #[trigger] has_child(after, d) == has_child(
        before,
        d,
    ) by {
        if has_child(after, d) {
            let j = child_index(after, d);
            assert(after[j].0 == d);
            assert(j != m);
            assert(after.take(m)[j] == after[j]);
            assert(before[j].0 == d);
            assert(has_child(before, d));
        }
        if has_child(before, d) {
            let j = child_index(before, d);
            assert(after.take(m)[j] == after[j]);
            assert(after[j].0 == d);
            assert(has_child(after, d));
        }
    }
    assert forall|d: char|
        d != c && has_child(before, d) implies #[trigger] child_at(after, d) == child_at(
        before,
        d,
    ) by {
        let j = child_index(before, d);
        assert(before[j].0 == d);
        assert(after.take(m)[j] == after[j]);
        assert(after[j].0 == d);
        let j2 = child_index(after, d);
        assert(after[j2].0 == d);
        assert(j2 != m);
        assert(after.take(m)[j2] == after[j2]);
        assert(before[j2].0 == d);
        if j2 != j {
            if j2 < j {
                assert(before[j2].0 != before[j].0);
            } else {
                assert(before[j].0 != before[j2].0);
            }
        }
        assert(j2 == j);
        assert(child_at(after, d) == after[j2].1);
        assert(child_at(before, d) == before[j].1);
    }
}

/// Replacing the unique child for a character by `sub` with a
/// swap-remove and a push keeps every other character's child.
proof fn lemma_swap_replace(
    before: Seq<(char, TrieNode)>,
    after: Seq<(char, TrieNode)>,
    k: int,
    sub: TrieNode,
)
    requires
        0 <= k < before.len(),
        forall|a: int, b: int|
            0 <= a < b < before.len() ==> (#[trigger] before[a]).0 != (#[trigger] before[b]).0,
        after == before.update(k, before.last()).drop_last().push((before[k].0, sub)),
    ensures
        forall|a: int, b: int|
            0 <= a < b < after.len() ==> (#[trigger] after[a]).0 != (#[trigger] after[b]).0,
        has_child(after, before[k].0),
        child_at(after, before[k].0) == sub,
        forall|d: char|
            d != before[k].0 ==> #[trigger] has_child(after, d) == has_child(before, d),
        forall|d: char|
            d != before[k].0 && has_child(before, d) ==> #[trigger] child_at(after, d)
                == child_at(before, d),
{
    let c = before[k].0;
    let m = before.len() as int;
    assert(after.len() == m);
    // Pair inventory: after holds every pair of before except the one at
    // k, plus (c, sub) at the end.
    assert forall|j: int| 0 <= j < m - 1 && j != k implies after[j] == before[j] by {
        assert(after[j] == before.update(k, before.last()).drop_last().push((c, sub))[j]);
    }
    assert(after[m - 1] == (c, sub));
    if k < m - 1 {
        assert(after[k] == before[m - 1]);
    }
    assert forall|a: int, b: int|
        0 <= a < b < after.len() implies (#[trigger] after[a]).0 != (#[trigger] after[b]).0 by {
        let ca = after_char_origin(before, k, a);
        let cb = after_char_origin(before, k, b);
        assert(after[a].0 == before[ca].0);
        assert(after[b].0 == before[cb].0);
        if ca != cb {
            if ca < cb {
                assert(before[ca].0 != before[cb].0);
            } else {
                assert(before[cb].0 != before[ca].0);
            }
        }
    }
    assert(has_child(after, c));
    assert forall|j: int| 0 <= j < after.len() && (#[trigger] after[j]).0 == c implies j == m
        - 1 by {
        let cj = after_char_origin(before, k, j);
        assert(after[j].0 == before[cj].0);
        if j != m - 1 {
            assert(cj != k);
            if cj < k {
                assert(before[cj].0 != before[k].0);
            } else {
                assert(before[k].0 != before[cj].0);
            }
        }
    }
    assert(child_index(after, c) == m - 1);
    assert(child_at(after, c) == sub);
    assert forall|d: char| d != c implies #[trigger] has_child(after, d) == has_child(
        before,
        d,
    ) by {
        if has_child(after, d) {
            let j = child_index(after, d);
            let cj = after_char_origin(before, k, j);
            assert(after[j] == before[cj] || after[j] == (c, sub));
            assert(before[cj].0 == d);
            assert(has_child(before, d));
        }
        if has_child(before, d) {
            let j = child_index(before, d);
            assert(before[j].0 == d);
            assert(j != k);
            if j == m - 1 {
                assert(after[k] == before[m - 1] || k == m - 1);
                if k == m - 1 {
                    assert(before[k].0 == c);
                }
                assert(has_child(after, d));
            } else {
                assert(after[j] == before[j]);
                assert(has_child(after, d));
            }
        }
    }
    assert forall|d: char|
        d != c && has_child(before, d) implies #[trigger] child_at(after, d) == child_at(
        before,
        d,
    ) by {
        let j = child_index(before, d);
        assert(before[j].0 == d);
        assert forall|j2: int| 0 <= j2 < before.len() && (#[trigger] before[j2]).0
            == d implies j2 == j by {
            if j2 < j {
                assert(before[j2].0 != before[j].0);
            } else if j2 > j {
                assert(before[j].0 != before[j2].0);
            }
        }
        let ja = child_index(after, d);
        let cj = after_char_origin(before, k, ja);
        assert(after[ja].0 == d);
        assert(after[ja] == before[cj] || after[ja] == (c, sub));
        assert(before[cj].0 == d);
        assert(cj == j);
        assert(child_at(after, d) == before[j].1);
        assert(child_at(before, d) == before[j].1);
    }
}

/// Which position of `before` the pair at position `j` of the rearranged
/// sequence came from.
pub open spec fn after_char_origin(before: Seq<(char, TrieNode)>, k: int, j: int) -> int {
    if j == before.len() - 1 {
        k
    } else if j == k {
        before.len() - 1
    } else {
        j
    }
}

/// The postings stored for a word, the empty sequence when absent.
pub open spec fn stored_or_empty(node: TrieNode, w: Seq<char>) -> Seq<usize> {
    match node_lookup(node, w) {
        Some(v) => v,
        None => Seq::empty(),
    }
}


/// If the first `i` characters are no wildcard and position `i` is one
/// (or the end), the first wildcard sits at `i`.
proof fn lemma_first_star_at(s: Seq<char>, i: int)
    requires
        0 <= i <= s.len(),
        forall|j: int| 0 <= j < i ==> s[j] != '*',
        i < s.len() ==> s[i] == '*',
    ensures
        first_star(s) == i,
    decreases s.len(),
{
    if s.len() == 0 {
    } else if s[0] == '*' {
        assert(i == 0);
    } else {
        assert(i >= 1);
        let t = s.drop_first();
        assert forall|j: int| 0 <= j < i - 1 implies t[j] != '*' by {
            assert(t[j] == s[j + 1]);
        }
        if i - 1 < t.len() {
            assert(t[i - 1] == s[i]);
        }
        lemma_first_star_at(t, i - 1);
    }
}

/// Everything below a walked node lies below the root.
proof fn lemma_walk_subtree(root: TrieNode, p: Seq<char>, nd: TrieNode, x: usize)
    requires
        node_walk(root, p) == Some(nd),
        subtree_set(nd).contains(x),
    ensures
        subtree_set(root).contains(x),
{
    let w = choose|w: Seq<char>| (#[trigger] lookup_set(nd, w)).contains(x);
    lemma_walk_lookup(root, p, w);
    assert(lookup_set(root, p + w).contains(x));
}

/// The union of every postings set in the subtree, as a bit-packed set.
fn subtree_bits(node: &TrieNode, nblocks: usize) -> (r: Vec<u64>)
    requires
        node_wf(*node),
        forall|x: usize|
            #[trigger] subtree_set(*node).contains(x) ==> (x as nat) / 64 < nblocks,
    ensures
        r@.len() == nblocks,
        forall|x: usize| #[trigger] bit_of(r@, x as nat) <==> subtree_set(*node).contains(x),
    decreases *node,
{
    proof {
        lemma_subtree_unfold(*node);
    }
    let mut acc: Vec<u64> = match &node.article_vec {
        Some(v) => {
            proof {
                assert forall|i: int|
                    0 <= i < v@.len() implies ((#[trigger] v@[i]) as nat) / 64 < nblocks by {
                    assert(v@.contains(v@[i]));
                    assert(own_set(*node).contains(v@[i]));
                    assert(subtree_set(*node).contains(v@[i]));
                }
            }
            list_to_bitvec(v, nblocks)
        },
        None => {
            let zeros: Vec<u64> = Vec::new();
            pad_blocks(zeros, nblocks)
        },
    };
    proof {
        assert forall|x: usize| #[trigger]
            bit_of(acc@, x as nat) <==> own_set(*node).contains(x) by {}
    }
    let mut k: usize = 0;
    while k < node.children_map.len()
        invariant
            node_wf(*node),
            forall|x: usize|
                #[trigger] subtree_set(*node).contains(x) ==> (x as nat) / 64 < nblocks,
            k <= node.children_map@.len(),
            acc@.len() == nblocks,
            forall|x: usize|
                #[trigger] bit_of(acc@, x as nat) <==> (own_set(*node).contains(x) || exists|
                    j: int,
                |
                    0 <= j < k && subtree_set(
                        #[trigger] node.children_map@[j].1,
                    ).contains(x)),
        decreases node.children_map@.len() - k,
    {
        proof {
            lemma_subtree_unfold(*node);
            assert(node_wf(node.children_map@[k as int].1));
            assert forall|x: usize|
                #[trigger] subtree_set(node.children_map@[k as int].1).contains(
                x,
            ) implies (x as nat) / 64 < nblocks by {
                assert(subtree_set(*node).contains(x));
            }
        }
        let child_bits = subtree_bits(&node.children_map[k].1, nblocks);
        let next = or_blocks(&acc, &child_bits);
        acc = next;
        proof {
            assert forall|x: usize| #[trigger]
                bit_of(acc@, x as nat) <==> (own_set(*node).contains(x) || exists|j: int|
                    0 <= j < k + 1 && subtree_set(
                        #[trigger] node.children_map@[j].1,
                    ).contains(x)) by {
                if bit_of(acc@, x as nat) {
                    if !own_set(*node).contains(x) {
                        if subtree_set(node.children_map@[k as int].1).contains(x) {
                        } else {
                            let j = choose|j: int|
                                0 <= j < k && subtree_set(
                                    #[trigger] node.children_map@[j].1,
                                ).contains(x);
                            assert(0 <= j < k + 1 && subtree_set(
                                node.children_map@[j].1,
                            ).contains(x));
                        }
                    }
                }
                if exists|j: int|
                    0 <= j < k + 1 && subtree_set(
                        #[trigger] node.children_map@[j].1,
                    ).contains(x) {
                    let j = choose|j: int|
                        0 <= j < k + 1 && subtree_set(
                            #[trigger] node.children_map@[j].1,
                        ).contains(x);
                    if j < k {
                        assert(bit_of(acc@, x as nat));
                    } else {
                        assert(bit_of(child_bits@, x as nat));
                    }
                }
            }
        }
        k += 1;
    }
    proof {
        lemma_subtree_unfold(*node);
    }
    acc
}

/// The stored postings of the exact remaining path, when the path ends
/// at a terminal.
fn node_find(node: &TrieNode, chars: &Vec<char>, pos: usize) -> (r: Option<Vec<usize>>)
    requires
        node_wf(*node),
        pos <= chars@.len(),
        chars@.len() < usize::MAX,
    ensures
        match r {
            Some(v) => node_lookup(*node, chars@.skip(pos as int)) == Some(v@),
            None => node_lookup(*node, chars@.skip(pos as int)) is None,
        },
    decreases chars@.len() - pos,
{
    let ghost tail = chars@.skip(pos as int);
    if pos == chars.len() {
        proof {
            assert(tail.len() == 0);
        }
        match &node.article_vec {
            Some(v) => Some(v.clone()),
            None => None,
        }
    } else {
        let c = chars[pos];
        proof {
            assert(tail.len() > 0);
            assert(tail[0] == c);
            assert(tail.drop_first() =~= chars@.skip(pos + 1));
        }
        let mut k: usize = 0;
        while k < node.children_map.len()
            invariant
                node_wf(*node),
                pos < chars@.len(),
                chars@.len() < usize::MAX,
                c == chars@[pos as int],
                tail == chars@.skip(pos as int),
                tail.len() > 0,
                tail[0] == c,
                tail.drop_first() == chars@.skip(pos + 1),
                k <= node.children_map@.len(),
                forall|a: int| 0 <= a < k ==> (#[trigger] node.children_map@[a]).0 != c,
            decreases node.children_map@.len() - k,
        {
            if node.children_map[k].0 == c {
                proof {
                    assert(has_child(node.children_map@, c));
                    assert forall|j: int|
                        0 <= j < node.children_map@.len() && (
                        #[trigger] node.children_map@[j]).0 == c implies j == k by {
                        if j < k as int {
                        } else if j > k as int {
                            assert(node.children_map@[k as int].0 != node.children_map@[j].0);
                        }
                    }
                    assert(child_index(node.children_map@, c) == k as int);
                    assert(node_wf(node.children_map@[k as int].1));
                }
                return node_find(&node.children_map[k].1, chars, pos + 1);
            }
            k += 1;
        }
        proof {
            assert(!has_child(node.children_map@, c));
        }
        None
    }
}

pub struct Trie {
    pub root: TrieNode,
    pub n_titles: usize,
}

impl Trie {
    /// Well-formed: every node's children carry distinct characters.
    pub open spec fn wf(&self) -> bool {
        node_wf(self.root)
    }

    /// Every stored article id names one of the `n_titles` articles.
    pub open spec fn bounded(&self) -> bool {
        node_bounded(self.root, self.n_titles as nat)
    }

    pub fn new() -> (trie: Trie)
        ensures
            trie.wf(),
            trie.n_titles == 0,
            forall|w: Seq<char>| #[trigger] node_lookup(trie.root, w) is None,
    {
        let trie = Trie { root: TrieNode::new(), n_titles: 0 };
        proof {
            assert forall|w: Seq<char>| #[trigger] node_lookup(trie.root, w) is None by {
                lemma_empty_node_lookup(trie.root, w);
            }
        }
        trie
    }

    /// Record that article `article_number` holds the word: append the id
    /// at the word's terminal unless it is already the last entry there.
    pub fn insert(&mut self, string_val: &String, article_number: usize)
        requires
            old(self).wf(),
        ensures
            final(self).wf(),
            final(self).n_titles == old(self).n_titles,
            node_lookup(final(self).root, string_val@) == Some(
                appended(stored_or_empty(old(self).root, string_val@), article_number),
            ),
            forall|w: Seq<char>|
                w != string_val@ ==> #[trigger] node_lookup(final(self).root, w) == node_lookup(
                    old(self).root,
                    w,
                ),
    {
        let chars = crate::index::index10_0::str_chars(string_val.as_str());
        let mut root = TrieNode::new();
        core::mem::swap(&mut self.root, &mut root);
        let newroot = node_insert(root, &chars, 0, article_number);
        self.root = newroot;
        proof {
            assert(chars@.skip(0) =~= string_val@);
        }
    }

    /// The bit-packed postings of the exact word, empty when the path or
    /// its terminal is missing.
    pub fn find_single(&self, string_val: &String) -> (r: Vec<u64>)
        requires
            self.wf(),
            self.bounded(),
            self.n_titles < usize::MAX - 64,
            string_val@.len() < usize::MAX,
        ensures
            forall|x: usize|
                #[trigger] bit_of(r@, x as nat) <==> lookup_set(
                    self.root,
                    string_val@,
                ).contains(x),
    {
        let chars = crate::index::index10_0::str_chars(string_val.as_str());
        proof {
            assert(chars@.skip(0) =~= string_val@);
        }
        match node_find(&self.root, &chars, 0) {
            Some(v) => {
                proof {
                    assert forall|i: int|
                        0 <= i < v@.len() implies ((#[trigger] v@[i]) as nat) / 64
                        < blocks_for(self.n_titles as nat) by {
                        assert(v@.contains(v@[i]));
                        assert(lookup_set(self.root, string_val@).contains(v@[i]));
                        assert(subtree_set(self.root).contains(v@[i]));
                        lemma_id_block(v@[i] as nat, self.n_titles as nat);
                    }
                }
                list_to_bitvec(&v, blocks_needed(self.n_titles))
            },
            None => {
                let r: Vec<u64> = Vec::new();
                r
            },
        }
    }

    /// The bit-packed result of a prefix query: walk the literal part;
    /// at a wildcard, the union of every postings set in the subtree; at
    /// the end of the word, the exact postings; empty when the path is
    /// missing.
    pub fn find_prefix(&self, string_val: &String) -> (r: Vec<u64>)
        requires
            self.wf(),
            self.bounded(),
            self.n_titles < usize::MAX - 64,
            string_val@.len() < usize::MAX,
        ensures
            forall|x: usize|
                #[trigger] bit_of(r@, x as nat) <==> prefix_query_set(
                    self.root,
                    string_val@,
                ).contains(x),
    {
        let ghost s = string_val@;
        let chars = crate::index::index10_0::str_chars(string_val.as_str());
        let n = chars.len();
        let mut current: &TrieNode = &self.root;
        let mut i: usize = 0;
        while i < n
            invariant
                self.wf(),
                self.bounded(),
                self.n_titles < usize::MAX - 64,
                s == string_val@,
                chars@ == s,
                n == s.len(),
                i <= n,
                node_wf(*current),
                node_walk(self.root, s.take(i as int)) == Some(*current),
                forall|j: int| 0 <= j < i ==> s[j] != '*',
            decreases n - i,
        {
            let c = chars[i];
            if c == '*' {
                proof {
                    lemma_first_star_at(s, i as int);
                    assert forall|x: usize|
                        #[trigger] subtree_set(*current).contains(x) implies (x as nat) / 64
                        < blocks_for(self.n_titles as nat) by {
                        lemma_walk_subtree(self.root, s.take(i as int), *current, x);
                        lemma_id_block(x as nat, self.n_titles as nat);
                    }
                }
                return subtree_bits(current, blocks_needed(self.n_titles));
            }
            let mut k: usize = 0;
            let mut found = false;
            let ghost cur = *current;
            while k < current.children_map.len() && !found
                invariant
                    current == &cur,
                    k <= current.children_map@.len(),
                    found ==> k < current.children_map@.len()
                        && current.children_map@[k as int].0 == c,
                    forall|a: int| 0 <= a < k ==> (#[trigger] current.children_map@[a]).0 != c,
                decreases current.children_map@.len() - k + (if found {
                    0int
                } else {
                    1int
                }),
            {
                if current.children_map[k].0 == c {
                    found = true;
                } else {
                    k += 1;
                }
            }
            if !found {
                proof {
                    assert(!has_child(current.children_map@, c));
                    assert(s.take(i + 1) =~= s.take(i as int).push(c));
                    lemma_walk_step(self.root, s, i as int, *current);
                    assert(node_walk(self.root, s.take(i + 1)) is None);
                    lemma_prefix_query_empty(self.root, s, i + 1);
                }
                let r: Vec<u64> = Vec::new();
                return r;
            }
            proof {
                assert(current.children_map@[k as int].0 == c);
                assert(has_child(current.children_map@, c));
                assert forall|j: int|
                    0 <= j < current.children_map@.len() && (
                #[trigger] current.children_map@[j]).0 == c implies j == k by {
                    if j > k as int {
                        assert(current.children_map@[k as int].0
                            != current.children_map@[j].0);
                    }
                }
                assert(child_index(current.children_map@, c) == k as int);
                lemma_walk_step(self.root, s, i as int, *current);
            }
            current = &current.children_map[k].1;
            i += 1;
        }
        proof {
            assert(s.take(n as int) =~= s);
            lemma_first_star_at(s, n as int);
        }
        match &current.article_vec {
            Some(v) => {
                proof {
                    assert(node_lookup(self.root, s) == node_lookup(*current, Seq::empty()))
                        by {
                        lemma_walk_lookup(self.root, s, Seq::<char>::empty());
                        assert(s + Seq::<char>::empty() =~= s);
                    }
                    assert forall|i2: int|
                        0 <= i2 < v@.len() implies ((#[trigger] v@[i2]) as nat) / 64
                        < blocks_for(self.n_titles as nat) by {
                        assert(v@.contains(v@[i2]));
                        assert(lookup_set(self.root, s).contains(v@[i2]));
                        assert(subtree_set(self.root).contains(v@[i2]));
                        lemma_id_block(v@[i2] as nat, self.n_titles as nat);
                    }
                }
                list_to_bitvec(v, blocks_needed(self.n_titles))
            },
            None => {
                proof {
                    assert(node_lookup(self.root, s) == node_lookup(*current, Seq::empty()))
                        by {
                        lemma_walk_lookup(self.root, s, Seq::<char>::empty());
                        assert(s + Seq::<char>::empty() =~= s);
                    }
                }
                let r: Vec<u64> = Vec::new();
                r
            },
        }
    }
}

/// One walking step: the walk of a one-longer prefix goes through the
/// child for the next character.
proof fn lemma_walk_step(root: TrieNode, s: Seq<char>, i: int, cur: TrieNode)
    requires
        0 <= i < s.len(),
        node_walk(root, s.take(i)) == Some(cur),
    ensures
        node_walk(root, s.take(i + 1)) == (if has_child(cur.children_map@, s[i]) {
            Some(child_at(cur.children_map@, s[i]))
        } else {
            None::<TrieNode>
        }),
{
    let w1 = seq![s[i]];
    assert(s.take(i + 1) =~= s.take(i) + w1);
    lemma_walk_append(root, s.take(i), w1);
    assert(w1[0] == s[i]);
    assert(w1.drop_first() =~= Seq::<char>::empty());
    if has_child(cur.children_map@, s[i]) {
        assert(node_walk(cur, w1) == node_walk(child_at(cur.children_map@, s[i]), w1.drop_first()));
    }
}

/// Walking a concatenation walks the parts in turn.
proof fn lemma_walk_append(node: TrieNode, p: Seq<char>, w: Seq<char>)
    ensures
        node_walk(node, p + w) == (match node_walk(node, p) {
            Some(nd) => node_walk(nd, w),
            None => None::<TrieNode>,
        }),
    decreases p.len(),
{
    if p.len() == 0 {
        assert(p + w =~= w);
    } else {
        let pw = p + w;
        assert(pw[0] == p[0]);
        if has_child(node.children_map@, p[0]) {
            let k = child_index(node.children_map@, p[0]);
            assert(pw.drop_first() =~= p.drop_first() + w);
            lemma_walk_append(node.children_map@[k].1, p.drop_first(), w);
        }
    }
}

/// A prefix query whose literal path breaks off denotes nothing.
proof fn lemma_prefix_query_empty(root: TrieNode, s: Seq<char>, i: int)
    requires
        0 < i <= s.len(),
        forall|j: int| 0 <= j < i - 1 ==> s[j] != '*',
        i - 1 < s.len() ==> s[i - 1] != '*',
        node_walk(root, s.take(i)) is None,
    ensures
        prefix_query_set(root, s) =~= Set::<usize>::empty(),
{
    lemma_first_star_bounds(s);
    let k = first_star(s);
    assert(k >= i) by {
        if k < i {
            assert(s[k] == '*');
        }
    }
    if k == s.len() {
        assert(s.take(s.len() as int) =~= s);
        assert(s =~= s.take(i) + s.skip(i));
        lemma_walk_lookup(root, s.take(i), s.skip(i));
        assert(node_lookup(root, s) is None);
    } else {
        assert(s.take(k) =~= s.take(i) + s.take(k).skip(i)) by {
            assert forall|j: int|
                0 <= j < k implies s.take(k)[j] == (s.take(i) + s.take(k).skip(i))[j] by {
                if j < i {
                    assert((s.take(i) + s.take(k).skip(i))[j] == s.take(i)[j]);
                    assert(s.take(i)[j] == s[j]);
                } else {
                    assert((s.take(i) + s.take(k).skip(i))[j] == s.take(k).skip(i)[j - i]);
                    assert(s.take(k).skip(i)[j - i] == s.take(k)[j]);
                }
                assert(s.take(k)[j] == s[j]);
            }
        }
        lemma_walk_append(root, s.take(i), s.take(k).skip(i));
        assert(node_walk(root, s.take(k)) is None);
    }
}

/// The first wildcard position lies within the word, and marks a
/// wildcard when it is inside.
proof fn lemma_first_star_bounds(s: Seq<char>)
    ensures
        0 <= first_star(s) <= s.len(),
        first_star(s) < s.len() ==> s[first_star(s)] == '*',
    decreases s.len(),
{
    if s.len() == 0 {
    } else if s[0] == '*' {
    } else {
        lemma_first_star_bounds(s.drop_first());
        assert(s.drop_first()[first_star(s.drop_first())] == s[1 + first_star(
            s.drop_first(),
        )] || first_star(s.drop_first()) == s.drop_first().len());
    }
}

impl Index<Trie> {
    /// Well-formed: the trie is sound and sized to the title list.
    pub open spec fn wf9(&self) -> bool {
        &&& self.database.wf()
        &&& self.database.bounded()
        &&& self.database.n_titles == self.article_titles@.len()
        &&& self.article_titles@.len() < usize::MAX - 64
    }

    /// Map each set bit to its article title, silently skipping any bit
    /// past the title count.
    pub fn bitvec_to_articlelist(&self, bitvecs: Vec<u64>) -> (output: ArticleTitles)
        ensures
            output@ == ids_to_titles(
                sorted_list_of(bits_set(bitvecs@, self.article_titles@.len() as nat)),
                self.article_titles@,
            ),
    {
        let ids = bitvec_ids(&bitvecs, self.article_titles.len());
        proof {
            lemma_sorted_list_of(ids@);
            assert(ids@.to_set() =~= bits_set(bitvecs@, self.article_titles@.len() as nat));
        }
        titles_of_ids(&ids, &self.article_titles)
    }

    /// The titles of the articles a prefix query denotes, in ascending
    /// id order.
    pub fn prefix_search(&self, query: &String) -> (result: ArticleTitles)
        requires
            self.wf9(),
            query@.len() < usize::MAX,
        ensures
            result@ == ids_to_titles(
                sorted_list_of(prefix_query_set(self.database.root, query@)),
                self.article_titles@,
            ),
    {
        let bits = self.database.find_prefix(query);
        let result = self.bitvec_to_articlelist(bits);
        proof {
            assert(bits_set(bits@, self.article_titles@.len() as nat) =~= prefix_query_set(
                self.database.root,
                query@,
            )) by {
                assert forall|x: usize|
                    #[trigger] prefix_query_set(self.database.root, query@).contains(
                    x,
                ) implies x < self.article_titles@.len() by {
                    lemma_prefix_query_bounded(self.database.root, query@, x);
                }
            }
        }
        result
    }

    /// The titles of the articles holding the exact word, in ascending
    /// id order.
    pub fn single_search(&self, query: &String) -> (result: ArticleTitles)
        requires
            self.wf9(),
            query@.len() < usize::MAX,
        ensures
            result@ == ids_to_titles(
                sorted_list_of(lookup_set(self.database.root, query@)),
                self.article_titles@,
            ),
    {
        let bits = self.database.find_single(query);
        let result = self.bitvec_to_articlelist(bits);
        proof {
            assert(bits_set(bits@, self.article_titles@.len() as nat) =~= lookup_set(
                self.database.root,
                query@,
            )) by {
                assert forall|x: usize|
                    #[trigger] lookup_set(self.database.root, query@).contains(
                    x,
                ) implies x < self.article_titles@.len() by {
                    assert(subtree_set(self.database.root).contains(x));
                }
            }
        }
        result
    }
}

/// What a prefix query denotes lies inside the trie's subtree.
proof fn lemma_prefix_query_bounded(root: TrieNode, s: Seq<char>, x: usize)
    requires
        prefix_query_set(root, s).contains(x),
    ensures
        subtree_set(root).contains(x),
{
    let k = first_star(s);
    if k == s.len() {
        assert(lookup_set(root, s).contains(x));
        assert(subtree_set(root).contains(x));
    } else {
        let nd = node_walk(root, s.take(k));
        assert(nd is Some);
        lemma_walk_subtree(root, s.take(k), nd->0, x);
    }
}

/// The abstract vocabulary a trie stores: each word with a terminal maps
/// to its postings.
pub open spec fn trie_map(root: TrieNode) -> Map<Seq<char>, Seq<usize>> {
    Map::new(
        |w: Seq<char>| node_lookup(root, w) is Some,
        |w: Seq<char>| stored_or_empty(root, w),
    )
}

impl Index<Trie> {
    /// Build the trie index from an article stream.  It stores, word for
    /// word, exactly the same postings as the list-encoded build.
    pub fn index9_1(articles: &Vec<(String, Vec<String>)>) -> (result: Index<Trie>)
        requires
            articles@.len() < usize::MAX - 64,
        ensures
            result.wf9(),
            ({
                let (dbl, titles) = crate::index::index8_0::build_index_spec(
                    Map::<Seq<char>, Seq<usize>>::empty(),
                    Seq::<String>::empty(),
                    articles@,
                );
                &&& result.article_titles@ == titles
                &&& forall|w: Seq<char>|
                    #[trigger] node_lookup(result.database.root, w) == (if dbl.contains_key(
                        w,
                    ) {
                        Some(dbl[w])
                    } else {
                        None::<Seq<usize>>
                    })
            }),
    {
        let mut database = Trie::new();
        let mut article_titles: Vec<String> = Vec::new();
        let ghost all = articles@;
        let ghost target = crate::index::index8_0::build_index_spec(
            Map::<Seq<char>, Seq<usize>>::empty(),
            Seq::<String>::empty(),
            all,
        );
        proof {
            assert(trie_map(database.root) =~= Map::<Seq<char>, Seq<usize>>::empty());
            assert(all.skip(0) =~= all);
        }
        let mut i: usize = 0;
        while i < articles.len()
            invariant
                i <= all.len(),
                articles@ == all,
                all.len() < usize::MAX - 64,
                article_titles@.len() <= i,
                database.wf(),
                node_bounded(database.root, article_titles@.len() as nat),
                target == crate::index::index8_0::build_index_spec(
                    Map::<Seq<char>, Seq<usize>>::empty(),
                    Seq::<String>::empty(),
                    all,
                ),
                crate::index::index8_0::build_index_spec(
                    trie_map(database.root),
                    article_titles@,
                    all.skip(i as int),
                ) == target,
            decreases all.len() - i,
        {
            proof {
                assert(all.skip(i as int)[0] == all[i as int]);
                assert(all.skip(i as int).drop_first() =~= all.skip(i + 1));
            }
            let title = &articles[i].0;
            if title.as_str().unicode_len() != 0 {
                article_titles.push(title.clone());
                let id = article_titles.len() - 1;
                let words = &articles[i].1;
                let ghost dbm0 = trie_map(database.root);
                let ghost titles_now = article_titles@;
                proof {
                    assert(words@.skip(0) =~= words@);
                }
                let mut j: usize = 0;
                while j < words.len()
                    invariant
                        j <= words@.len(),
                        id + 1 == article_titles@.len(),
                        article_titles@ == titles_now,
                        database.wf(),
                        node_bounded(database.root, article_titles@.len() as nat),
                        crate::index::index8_0::add_words(
                            trie_map(database.root),
                            words@.skip(j as int),
                            id,
                        ) == crate::index::index8_0::add_words(dbm0, words@, id),
                    decreases words@.len() - j,
                {
                    let ghost root0 = database.root;
                    proof {
                        assert(words@.skip(j as int)[0] == words@[j as int]);
                        assert(words@.skip(j as int).drop_first() =~= words@.skip(j + 1));
                    }
                    database.insert(&words[j], id);
                    proof {
                        let wv = words@[j as int]@;
                        assert(stored_or_empty(root0, wv) == postings_of(
                            trie_map(root0),
                            wv,
                        ));
                        assert(trie_map(database.root) =~= trie_map(root0).insert(
                            wv,
                            appended(postings_of(trie_map(root0), wv), id),
                        ));
                        assert forall|x: usize|
                            #[trigger] subtree_set(database.root).contains(
                            x,
                        ) implies x < article_titles@.len() by {
                            let w = choose|w: Seq<char>|
                                (#[trigger] lookup_set(database.root, w)).contains(x);
                            if w == wv {
                                crate::index::index7::lemma_appended_to_set(
                                    stored_or_empty(root0, wv),
                                    id,
                                );
                                if x != id {
                                    assert(stored_or_empty(root0, wv).to_set().contains(x));
                                    assert(lookup_set(root0, wv).contains(x));
                                    assert(subtree_set(root0).contains(x));
                                }
                            } else {
                                assert(node_lookup(database.root, w) == node_lookup(
                                    root0,
                                    w,
                                ));
                                assert(lookup_set(root0, w).contains(x));
                                assert(subtree_set(root0).contains(x));
                            }
                        }
                    }
                    j += 1;
                }
                proof {
                    assert(words@.skip(words@.len() as int).len() == 0);
                }
            }
            i += 1;
        }
        proof {
            assert(all.skip(all.len() as int).len() == 0);
        }
        let n_titles = article_titles.len();
        let mut database = database;
        database.n_titles = n_titles;
        proof {
            let r = crate::index::index8_0::build_index_spec(
                trie_map(database.root),
                article_titles@,
                all.skip(all.len() as int),
            );
            assert(r == (trie_map(database.root), article_titles@));
            assert forall|w: Seq<char>|
                #[trigger] node_lookup(database.root, w) == (if target.0.contains_key(w) {
                    Some(target.0[w])
                } else {
                    None::<Seq<usize>>
                }) by {
                assert(target.0 == trie_map(database.root));
                if trie_map(database.root).contains_key(w) {
                    assert(trie_map(database.root)[w] == stored_or_empty(database.root, w));
                }
            }
        }
        Index { database, article_titles }
    }
}

impl Search for Index<Trie> {
    open spec fn supports(&self, query: &Query) -> bool {
        &&& self.wf9()
        &&& query.search_string@.len() < usize::MAX
        &&& match query.search_type {
            SearchType::SingleWordSearch => true,
            SearchType::PrefixSearch => true,
            _ => false,
        }
    }

    /// Dispatch: the exact word lookup or the prefix query, both
    /// returning titles in ascending id order.
    fn search(&self, query: &Query) -> (result: ArticleTitles)
        ensures
            match query.search_type {
                SearchType::SingleWordSearch => result@ == ids_to_titles(
                    sorted_list_of(lookup_set(self.database.root, query.search_string@)),
                    self.article_titles@,
                ),
                SearchType::PrefixSearch => result@ == ids_to_titles(
                    sorted_list_of(
                        prefix_query_set(self.database.root, query.search_string@),
                    ),
                    self.article_titles@,
                ),
                _ => true,
            },
    {
        match &query.search_type {
            SearchType::SingleWordSearch => self.single_search(&query.search_string),
            SearchType::PrefixSearch => self.prefix_search(&query.search_string),
            _ => {
                proof {
                    assert(false);
                }
                unreached()
            },
        }
    }
}

/// Prefix lookup denotes exactly the union of the exact lookups of every
/// word that starts with the literal prefix: the wildcard gathers the
/// whole subtree, word for word.
pub proof fn lemma_prefix_is_union(root: TrieNode, p: Seq<char>)
    requires
        node_wf(root),
        forall|j: int| 0 <= j < p.len() ==> p[j] != '*',
    ensures
        forall|x: usize|
            #[trigger] prefix_query_set(root, p + seq!['*']).contains(x) <==> exists|
                w: Seq<char>,
            |
                w.len() >= p.len() && w.take(p.len() as int) == p && (#[trigger] lookup_set(
                    root,
                    w,
                )).contains(x),
{
    let s = p + seq!['*'];
    assert(s.len() == p.len() + 1);
    assert forall|j: int| 0 <= j < p.len() implies s[j] != '*' by {
        assert(s[j] == p[j]);
    }
    assert(s[p.len() as int] == '*');
    lemma_first_star_at(s, p.len() as int);
    assert(s.take(p.len() as int) =~= p);
    assert forall|x: usize|
        #[trigger] prefix_query_set(root, s).contains(x) <==> exists|w: Seq<char>|
            w.len() >= p.len() && w.take(p.len() as int) == p && (#[trigger] lookup_set(
                root,
                w,
            )).contains(x) by {
        match node_walk(root, p) {
            Some(nd) => {
                if prefix_query_set(root, s).contains(x) {
                    assert(subtree_set(nd).contains(x));
                    let w2 = choose|w2: Seq<char>|
                        (#[trigger] lookup_set(nd, w2)).contains(x);
                    lemma_walk_lookup(root, p, w2);
                    let w = p + w2;
                    assert(w.take(p.len() as int) =~= p);
                    assert(lookup_set(root, w).contains(x));
                }
                if exists|w: Seq<char>|
                    w.len() >= p.len() && w.take(p.len() as int) == p && (
                    #[trigger] lookup_set(root, w)).contains(x) {
                    let w = choose|w: Seq<char>|
                        w.len() >= p.len() && w.take(p.len() as int) == p && (
                        #[trigger] lookup_set(root, w)).contains(x);
                    let w2 = w.skip(p.len() as int);
                    assert(w =~= p + w2);
                    lemma_walk_lookup(root, p, w2);
                    assert(lookup_set(nd, w2).contains(x));
                    assert(subtree_set(nd).contains(x));
                }
            },
            None => {
                if exists|w: Seq<char>|
                    w.len() >= p.len() && w.take(p.len() as int) == p && (
                    #[trigger] lookup_set(root, w)).contains(x) {
                    let w = choose|w: Seq<char>|
                        w.len() >= p.len() && w.take(p.len() as int) == p && (
                        #[trigger] lookup_set(root, w)).contains(x);
                    let w2 = w.skip(p.len() as int);
                    assert(w =~= p + w2);
                    lemma_walk_lookup(root, p, w2);
                    assert(node_lookup(root, w) is None);
                }
            },
        }
    }
}

} // verus!
