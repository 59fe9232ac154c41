//! The bit-packed inverted index.
//!
//! A postings set is a sequence of 64-bit blocks: bit `b` of block `i` is
//! set exactly when article `i*64 + b` holds the term.  `And` and `Or`
//! are per-block bitwise operations; `Invert` is a per-block complement,
//! whose stray bits past the article count the decode step ignores.
use vstd::prelude::*;

use crate::bounded_by;
use crate::index::{
    appended, eval_sets, ids_to_titles, postings_of, query_eval_sets, ArticleTitles, Index,
    Query, Search, SearchType, WordMap,
};
use crate::lemma_sorted_list_of;
use crate::parsing::{ast_view, AstNode, BinaryOp, Expr, ExprData};
use crate::sorted_list_of;
use crate::sorted_strict;
use vstd::hash_map::StringHashMap;

verus! {

/// How many 64-bit blocks cover `n` articles.
pub open spec fn blocks_for(n: nat) -> nat {
    (n + 63) / 64
}

/// Whether bit `i` is set in a block sequence.
pub open spec fn bit_of(blocks: Seq<u64>, i: nat) -> bool {
    i / 64 < blocks.len() && ((blocks[(i / 64) as int] >> ((i % 64) as u64)) & 1u64) == 1u64
}

/// The stored blocks a bit-packed vocabulary holds for a term, none when
/// the term is absent.
pub open spec fn blocks_of(db: Map<Seq<char>, Seq<u64>>, w: Seq<char>) -> Seq<u64> {
    if db.contains_key(w) {
        db[w]
    } else {
        Seq::empty()
    }
}

/// Every article id whose bit is set.
pub open spec fn bits_set_all(blocks: Seq<u64>) -> Set<usize> {
    Set::new(|x: usize| bit_of(blocks, x as nat))
}

/// Every article id below `n` whose bit is set.
pub open spec fn bits_set(blocks: Seq<u64>, n: nat) -> Set<usize> {
    Set::new(|x: usize| x < n && bit_of(blocks, x as nat))
}

proof fn lemma_or_bit(a: u64, b: u64, t: u64)
    requires
        t < 64,
    ensures
        (((a | b) >> t) & 1u64 == 1u64) <==> ((a >> t) & 1u64 == 1u64 || (b >> t) & 1u64
            == 1u64),
{
    assert((((a | b) >> t) & 1u64 == 1u64) <==> ((a >> t) & 1u64 == 1u64 || (b >> t) & 1u64
        == 1u64)) by (bit_vector)
        requires
            t < 64,
    ;
}

proof fn lemma_and_bit(a: u64, b: u64, t: u64)
    requires
        t < 64,
    ensures
        (((a & b) >> t) & 1u64 == 1u64) <==> ((a >> t) & 1u64 == 1u64 && (b >> t) & 1u64
            == 1u64),
{
    assert((((a & b) >> t) & 1u64 == 1u64) <==> ((a >> t) & 1u64 == 1u64 && (b >> t) & 1u64
        == 1u64)) by (bit_vector)
        requires
            t < 64,
    ;
}

proof fn lemma_not_bit(a: u64, t: u64)
    requires
        t < 64,
    ensures
        (((!a) >> t) & 1u64 == 1u64) <==> !((a >> t) & 1u64 == 1u64),
{
    assert((((!a) >> t) & 1u64 == 1u64) <==> !((a >> t) & 1u64 == 1u64)) by (bit_vector)
        requires
            t < 64,
    ;
}

pub proof fn lemma_set_bit(a: u64, s: u64, t: u64)
    requires
        s < 64,
        t < 64,
    ensures
        (((a | (1u64 << s)) >> t) & 1u64 == 1u64) <==> (t == s || (a >> t) & 1u64 == 1u64),
{
    assert((((a | (1u64 << s)) >> t) & 1u64 == 1u64) <==> (t == s || (a >> t) & 1u64 == 1u64))
        by (bit_vector)
        requires
            s < 64,
            t < 64,
    ;
}

/// An id names the pair of its block index and bit offset.
pub proof fn lemma_bit_address(x: nat, id: nat)
    requires
        x / 64 == id / 64,
        x % 64 == id % 64,
    ensures
        x == id,
{
    vstd::arithmetic::div_mod::lemma_fundamental_div_mod(x as int, 64);
    vstd::arithmetic::div_mod::lemma_fundamental_div_mod(id as int, 64);
}

/// Recording one more occurrence adds exactly that id to the member set.
pub proof fn lemma_appended_to_set(s: Seq<usize>, id: usize)
    ensures
        appended(s, id).to_set() == s.to_set().insert(id),
{
    if s.len() > 0 && s[s.len() - 1] == id {
        assert(s.contains(id));
        assert(s.to_set() =~= s.to_set().insert(id));
    } else {
        let t = s.push(id);
        assert forall|x: usize|
            t.to_set().contains(x) <==> s.to_set().insert(id).contains(x) by {
            if t.contains(x) {
                let k = choose|k: int| 0 <= k < t.len() && t[k] == x;
                if k < s.len() {
                    assert(s[k] == x);
                }
            }
            if x == id {
                assert(t[t.len() - 1] == x);
            }
            if s.contains(x) {
                let k = choose|k: int| 0 <= k < s.len() && s[k] == x;
                assert(t[k] == x);
            }
        }
        assert(t.to_set() =~= s.to_set().insert(id));
    }
}

/// A block cover never shrinks as the article count grows.
pub proof fn lemma_blocks_for_le(n: nat, m: nat)
    requires
        n <= m,
    ensures
        blocks_for(n) <= blocks_for(m),
{
    vstd::arithmetic::div_mod::lemma_div_is_ordered(n as int + 63, m as int + 63, 64);
}

/// The block of a valid article id lies inside the cover of `n` articles.
pub proof fn lemma_id_block(id: nat, n: nat)
    requires
        id < n,
    ensures
        id / 64 + 1 <= blocks_for(n),
        id / 64 < blocks_for(n),
{
    vstd::arithmetic::div_mod::lemma_div_plus_one(id as int, 64);
    vstd::arithmetic::div_mod::lemma_div_is_ordered(id as int + 64, n as int + 63, 64);
}

/// Per-block bitwise OR of two equally long block sequences.
pub fn or_blocks(a: &Vec<u64>, b: &Vec<u64>) -> (r: Vec<u64>)
    requires
        a@.len() == b@.len(),
    ensures
        r@.len() == a@.len(),
        forall|x: nat| #[trigger] bit_of(r@, x) <==> (bit_of(a@, x) || bit_of(b@, x)),
{
    let mut r: Vec<u64> = Vec::new();
    let mut i: usize = 0;
    while i < a.len()
        invariant
            i <= a@.len(),
            a@.len() == b@.len(),
            r@.len() == i,
            forall|j: int| 0 <= j < i ==> r@[j] == (a@[j] | b@[j]),
        decreases a@.len() - i,
    {
        r.push(a[i] | b[i]);
        i += 1;
    }
    proof {
        assert forall|x: nat| #[trigger]
            bit_of(r@, x) <==> (bit_of(a@, x) || bit_of(b@, x)) by {
            if x / 64 < r@.len() {
                lemma_or_bit(a@[(x / 64) as int], b@[(x / 64) as int], (x % 64) as u64);
            }
        }
    }
    r
}

/// Per-block bitwise AND of two equally long block sequences.
pub fn and_blocks(a: &Vec<u64>, b: &Vec<u64>) -> (r: Vec<u64>)
    requires
        a@.len() == b@.len(),
    ensures
        r@.len() == a@.len(),
        forall|x: nat| #[trigger] bit_of(r@, x) <==> (bit_of(a@, x) && bit_of(b@, x)),
{
    let mut r: Vec<u64> = Vec::new();
    let mut i: usize = 0;
    while i < a.len()
        invariant
            i <= a@.len(),
            a@.len() == b@.len(),
            r@.len() == i,
            forall|j: int| 0 <= j < i ==> r@[j] == (a@[j] & b@[j]),
        decreases a@.len() - i,
    {
        r.push(a[i] & b[i]);
        i += 1;
    }
    proof {
        assert forall|x: nat| #[trigger]
            bit_of(r@, x) <==> (bit_of(a@, x) && bit_of(b@, x)) by {
            if x / 64 < r@.len() {
                lemma_and_bit(a@[(x / 64) as int], b@[(x / 64) as int], (x % 64) as u64);
            }
        }
    }
    r
}

/// Per-block bitwise complement.
pub fn not_blocks(a: &Vec<u64>) -> (r: Vec<u64>)
    ensures
        r@.len() == a@.len(),
        forall|x: nat| x / 64 < a@.len() ==> (#[trigger] bit_of(r@, x) <==> !bit_of(a@, x)),
{
    let mut r: Vec<u64> = Vec::new();
    let mut i: usize = 0;
    while i < a.len()
        invariant
            i <= a@.len(),
            r@.len() == i,
            forall|j: int| 0 <= j < i ==> r@[j] == !a@[j],
        decreases a@.len() - i,
    {
        r.push(!a[i]);
        i += 1;
    }
    proof {
        assert forall|x: nat| x / 64 < a@.len() implies (#[trigger] bit_of(r@, x) <==> !bit_of(
            a@,
            x,
        )) by {
            lemma_not_bit(a@[(x / 64) as int], (x % 64) as u64);
        }
    }
    r
}

/// A block sequence extended with zero blocks up to `nblocks`.
pub fn pad_blocks(v: Vec<u64>, nblocks: usize) -> (r: Vec<u64>)
    requires
        v@.len() <= nblocks,
    ensures
        r@.len() == nblocks,
        forall|x: nat| #[trigger] bit_of(r@, x) <==> bit_of(v@, x),
{
    let mut r = v;
    while r.len() < nblocks
        invariant
            r@.len() <= nblocks,
            v@.len() <= r@.len(),
            forall|j: int| 0 <= j < v@.len() ==> r@[j] == v@[j],
            forall|j: int| v@.len() <= j < r@.len() ==> r@[j] == 0u64,
        decreases nblocks - r@.len(),
    {
        r.push(0);
    }
    proof {
        assert forall|x: nat| #[trigger] bit_of(r@, x) <==> bit_of(v@, x) by {
            if x / 64 < v@.len() {
            } else if x / 64 < r@.len() {
                assert(r@[(x / 64) as int] == 0u64);
                let t = (x % 64) as u64;
                assert((0u64 >> t) & 1u64 == 0u64) by (bit_vector);
            }
        }
    }
    r
}

/// The strictly increasing list of set bits below `limit`.
pub fn bitvec_ids(blocks: &Vec<u64>, limit: usize) -> (r: Vec<usize>)
    ensures
        sorted_strict(r@),
        bounded_by(r@, limit as nat),
        forall|x: usize|
            #[trigger] r@.contains(x) <==> (x < limit && bit_of(blocks@, x as nat)),
{
    let mut r: Vec<usize> = Vec::new();
    let mut id: usize = 0;
    while id < limit && id / 64 < blocks.len()
        invariant
            sorted_strict(r@),
            bounded_by(r@, id as nat),
            id <= limit,
            forall|x: usize|
                #[trigger] r@.contains(x) <==> (x < id && bit_of(blocks@, x as nat)),
        decreases limit - id,
    {
        let b = blocks[id / 64];
        let bit = (b >> ((id % 64) as u64)) & 1u64;
        let ghost old_res = r@;
        if bit == 1 {
            proof {
                assert forall|k: int| 0 <= k < r@.len() implies r@[k] < id by {
                    assert(r@.contains(r@[k]));
                }
            }
            r.push(id);
            proof {
                assert(r@ == old_res.push(id));
                assert forall|x: usize| #[trigger]
                    r@.contains(x) <==> (x < id + 1 && bit_of(blocks@, x as nat)) by {
                    if x == id {
                        assert(r@[r@.len() - 1] == id);
                    } else {
                        if r@.contains(x) {
                            let k = choose|k: int| 0 <= k < r@.len() && r@[k] == x;
                            assert(old_res[k] == x);
                            assert(old_res.contains(x));
                        }
                        if x < id && bit_of(blocks@, x as nat) {
                            assert(old_res.contains(x));
                            let k = choose|k: int|
                                0 <= k < old_res.len() && old_res[k] == x;
                            assert(r@[k] == x);
                        }
                    }
                }
            }
        } else {
            proof {
                assert(!bit_of(blocks@, id as nat));
                assert forall|x: usize| #[trigger]
                    r@.contains(x) <==> (x < id + 1 && bit_of(blocks@, x as nat)) by {}
            }
        }
        id += 1;
    }
    proof {
        assert forall|x: usize| #[trigger]
            r@.contains(x) <==> (x < limit && bit_of(blocks@, x as nat)) by {
            if x >= id && x < limit && bit_of(blocks@, x as nat) {
                assert((x as nat) / 64 >= (id as nat) / 64);
                assert(false);
            }
        }
    }
    r
}

/// Map each id of a bounded id list to its title.
pub fn titles_of_ids(ids: &Vec<usize>, titles: &Vec<String>) -> (output: Vec<String>)
    requires
        bounded_by(ids@, titles@.len() as nat),
    ensures
        output@ == ids_to_titles(ids@, titles@),
{
    let mut output: Vec<String> = Vec::new();
    let mut k: usize = 0;
    while k < ids.len()
        invariant
            k <= ids@.len(),
            bounded_by(ids@, titles@.len() as nat),
            output@ == ids_to_titles(ids@.take(k as int), titles@),
        decreases ids@.len() - k,
    {
        output.push(titles[ids[k]].clone());
        proof {
            assert(ids@.take(k + 1).map_values(|id: usize| titles@[id as int]) =~= ids@.take(
                k as int,
            ).map_values(|id: usize| titles@[id as int]).push(titles@[ids@[k as int] as int]));
        }
        k += 1;
    }
    proof {
        assert(ids@.take(ids@.len() as int) =~= ids@);
    }
    output
}

/// A bit-packed vocabulary: each term's postings as 64-bit blocks.
pub struct BitMap {
    map: StringHashMap<Vec<u64>>,
}

impl View for BitMap {
    type V = Map<Seq<char>, Seq<u64>>;

    closed spec fn view(&self) -> Map<Seq<char>, Seq<u64>> {
        Map::new(|w: Seq<char>| self.map@.contains_key(w), |w: Seq<char>| self.map@[w]@)
    }
}

impl BitMap {
    pub fn new() -> (result: Self)
        ensures
            result@ == Map::<Seq<char>, Seq<u64>>::empty(),
    {
        let result = BitMap { map: StringHashMap::new() };
        proof {
            assert(result@ =~= Map::<Seq<char>, Seq<u64>>::empty());
        }
        result
    }

    /// Store a term's blocks directly.
    pub fn insert(&mut self, word: String, blocks: Vec<u64>)
        ensures
            final(self)@ == old(self)@.insert(word@, blocks@),
    {
        self.map.insert(word, blocks);
        proof {
            assert(self@ =~= old(self)@.insert(word@, blocks@));
        }
    }

    /// The blocks of `word`, or no blocks for an unknown term.
    pub fn get_or_empty(&self, word: &str) -> (result: Vec<u64>)
        ensures
            result@ == self.blocks(word@),
    {
        match self.map.get(word) {
            Some(v) => v.clone(),
            None => Vec::new(),
        }
    }

    /// The stored blocks of a term, the empty sequence when absent.
    pub open spec fn blocks(&self, w: Seq<char>) -> Seq<u64> {
        blocks_of(self@, w)
    }

    /// Record that article `id` holds `word`: set the id's bit, extending
    /// the term's blocks as far as the bit requires.
    pub fn add_occurrence(&mut self, word: &String, id: usize)
        requires
            id < usize::MAX - 64,
        ensures
            final(self)@.contains_key(word@),
            final(self)@[word@].len() == if old(self).blocks(word@).len() >= id / 64 + 1 {
                old(self).blocks(word@).len() as int
            } else {
                id / 64 + 1
            },
            bits_set_all(final(self)@[word@]) == bits_set_all(old(self).blocks(word@)).insert(
                id,
            ),
            forall|w: Seq<char>|
                w != word@ ==> #[trigger] final(self)@.contains_key(w) == old(
                    self,
                )@.contains_key(w),
            forall|w: Seq<char>|
                w != word@ && old(self)@.contains_key(w) ==> #[trigger] final(self)@[w] == old(
                    self,
                )@[w],
    {
        let v = self.get_or_empty(word.as_str());
        let b = id / 64;
        let s = (id % 64) as u64;
        let mut v = if v.len() < b + 1 {
            pad_blocks(v, b + 1)
        } else {
            v
        };
        let ghost padded = v@;
        let blk = v[b];
        v.set(b, blk | (1u64 << s));
        proof {
            assert forall|x: nat| #[trigger]
                bit_of(v@, x) <==> (bit_of(padded, x) || x == id as nat) by {
                if x / 64 == b {
                    lemma_set_bit(padded[b as int], s, (x % 64) as u64);
                    if x % 64 == s {
                        lemma_bit_address(x, id as nat);
                    }
                } else {
                    assert(v@[(x / 64) as int] == padded[(x / 64) as int] || x / 64
                        >= v@.len());
                }
            }
            assert(bits_set_all(v@) =~= bits_set_all(old(self).blocks(word@)).insert(id));
        }
        let w = word.clone();
        self.map.insert(w, v);
        proof {
            assert(final(self)@ =~= old(self)@.insert(word@, v@));
        }
    }
}

impl Index<BitMap> {
    /// Well-formed: every term's blocks fit the article universe and no
    /// set bit names an article past the title count.
    pub open spec fn wf7(&self) -> bool {
        &&& self.article_titles@.len() < usize::MAX - 64
        &&& forall|w: Seq<char>|
            self.database@.contains_key(w) ==> (#[trigger] self.database@[w]).len()
                <= blocks_for(self.article_titles@.len() as nat)
        &&& forall|w: Seq<char>, x: usize|
            self.database@.contains_key(w) && #[trigger] bit_of(self.database@[w], x as nat)
                ==> x < self.article_titles@.len()
    }

    /// The abstract vocabulary: each term's set of article ids.
    pub open spec fn set_model(&self) -> Map<Seq<char>, Set<usize>> {
        Map::new(
            |w: Seq<char>| self.database@.contains_key(w),
            |w: Seq<char>| bits_set_all(self.database@[w]),
        )
    }

    /// Build the bit-packed index from an article stream.  It denotes,
    /// term for term, exactly the same sets as the list-encoded build.
    pub fn index7(articles: &Vec<(String, Vec<String>)>) -> (result: Index<BitMap>)
        requires
            articles@.len() < usize::MAX - 64,
        ensures
            result.wf7(),
            ({
                let (dbl, titles) = crate::index::index8_0::build_index_spec(
                    Map::<Seq<char>, Seq<usize>>::empty(),
                    Seq::<String>::empty(),
                    articles@,
                );
                &&& result.article_titles@ == titles
                &&& forall|w: Seq<char>|
                    #[trigger] result.database@.contains_key(w) == dbl.contains_key(w)
                &&& forall|w: Seq<char>|
                    result.database@.contains_key(w) ==> bits_set_all(
                        #[trigger] result.database@[w],
                    ) == dbl[w].to_set()
            }),
    {
        let mut database = BitMap::new();
        let mut article_titles: Vec<String> = Vec::new();

        let ghost all = articles@;
        let mut i: usize = 0;
        while i < articles.len()
            invariant
                i <= all.len(),
                articles@ == all,
                all.len() < usize::MAX - 64,
                article_titles@.len() <= i,
                ({
                    let (dbl, titles) = crate::index::index8_0::build_index_spec(
                        Map::<Seq<char>, Seq<usize>>::empty(),
                        Seq::<String>::empty(),
                        all.take(i as int),
                    );
                    &&& article_titles@ == titles
                    &&& forall|w: Seq<char>|
                        #[trigger] database@.contains_key(w) == dbl.contains_key(w)
                    &&& forall|w: Seq<char>|
                        database@.contains_key(w) ==> bits_set_all(#[trigger] database@[w])
                            == dbl[w].to_set()
                    &&& forall|w: Seq<char>|
                        database@.contains_key(w) ==> (#[trigger] database@[w]).len()
                            <= blocks_for(titles.len() as nat)
                }),
                forall|w: Seq<char>, x: usize|
                    database@.contains_key(w) && #[trigger] bit_of(database@[w], x as nat)
                        ==> x < article_titles@.len(),
            decreases all.len() - i,
        {
            proof {
                crate::index::index8_0::lemma_build_index_spec_snoc(
                    Map::<Seq<char>, Seq<usize>>::empty(),
                    Seq::<String>::empty(),
                    all.take(i as int),
                    all[i as int],
                );
                assert(all.take(i as int).push(all[i as int]) =~= all.take(i + 1));
            }
            let title = &articles[i].0;
            if title.as_str().unicode_len() != 0 {
                article_titles.push(title.clone());
                let id = article_titles.len() - 1;
                let words = &articles[i].1;
                let ghost dbl0 = crate::index::index8_0::build_index_spec(
                    Map::<Seq<char>, Seq<usize>>::empty(),
                    Seq::<String>::empty(),
                    all.take(i as int),
                ).0;
                let ghost db0 = database@;
                proof {
                    assert(words@.take(0) =~= Seq::<String>::empty());
                    assert(crate::index::index8_0::add_words(dbl0, words@.take(0), id)
                        == dbl0);
                    lemma_blocks_for_le(
                        (article_titles@.len() - 1) as nat,
                        article_titles@.len() as nat,
                    );
                    assert(forall|w: Seq<char>|
                        #[trigger] database@.contains_key(w) == dbl0.contains_key(w));
                    assert(forall|w: Seq<char>|
                        database@.contains_key(w) ==> bits_set_all(#[trigger] database@[w])
                            == dbl0[w].to_set());
                    assert(forall|w: Seq<char>|
                        database@.contains_key(w) ==> (#[trigger] database@[w]).len()
                            <= blocks_for(article_titles@.len() as nat));
                }
                let mut j: usize = 0;
                while j < words.len()
                    invariant
                        j <= words@.len(),
                        id < usize::MAX - 64,
                        id + 1 == article_titles@.len(),
                        ({
                            let dbl = crate::index::index8_0::add_words(
                                dbl0,
                                words@.take(j as int),
                                id,
                            );
                            &&& forall|w: Seq<char>|
                                #[trigger] database@.contains_key(w) == dbl.contains_key(w)
                            &&& forall|w: Seq<char>|
                                database@.contains_key(w) ==> bits_set_all(
                                    #[trigger] database@[w],
                                ) == dbl[w].to_set()
                            &&& forall|w: Seq<char>|
                                database@.contains_key(w) ==> (#[trigger] database@[w]).len()
                                    <= blocks_for(article_titles@.len() as nat)
                        }),
                        forall|w: Seq<char>, x: usize|
                            database@.contains_key(w) && #[trigger] bit_of(database@[w], x as nat)
                                ==> x < article_titles@.len(),
                    decreases words@.len() - j,
                {
                    let ghost dbl_pre = crate::index::index8_0::add_words(
                        dbl0,
                        words@.take(j as int),
                        id,
                    );
                    proof {
                        crate::index::index8_0::lemma_add_words_snoc(
                            dbl0,
                            words@.take(j as int),
                            words@[j as int],
                            id,
                        );
                        assert(words@.take(j as int).push(words@[j as int]) =~= words@.take(
                            j + 1,
                        ));
                    }
                    let ghost db_pre = database@;
                    database.add_occurrence(&words[j], id);
                    proof {
                        let w = words@[j as int]@;
                        let lst = postings_of(dbl_pre, w);
                        lemma_appended_to_set(lst, id);
                        lemma_id_block(id as nat, article_titles@.len() as nat);
                        let dbl_post = dbl_pre.insert(w, appended(lst, id));
                        if !db_pre.contains_key(w) {
                            assert(bits_set_all(Seq::<u64>::empty()) =~= Set::<usize>::empty());
                            assert(Seq::<usize>::empty().to_set() =~= Set::<usize>::empty());
                        }
                        assert(bits_set_all(database@[w]) == dbl_post[w].to_set());
                        assert forall|w2: Seq<char>| #[trigger]
                            database@.contains_key(w2) == dbl_post.contains_key(w2) by {}
                        assert forall|w2: Seq<char>|
                            database@.contains_key(w2) implies bits_set_all(
                            #[trigger] database@[w2],
                        ) == dbl_post[w2].to_set() by {}
                        let dbl_next = crate::index::index8_0::add_words(
                            dbl0,
                            words@.take(j + 1),
                            id,
                        );
                        assert(dbl_next == dbl_post);
                        assert(forall|w2: Seq<char>|
                            #[trigger] database@.contains_key(w2) == dbl_next.contains_key(w2));
                        assert(forall|w2: Seq<char>|
                            database@.contains_key(w2) ==> bits_set_all(
                                #[trigger] database@[w2],
                            ) == dbl_next[w2].to_set());
                        assert forall|w2: Seq<char>|
                            database@.contains_key(w2) implies (#[trigger] database@[w2]).len()
                                <= blocks_for(article_titles@.len() as nat) by {
                            if w2 == words@[j as int]@ {
                                if db_pre.contains_key(w2) {
                                    assert(db_pre[w2].len() <= blocks_for(
                                        article_titles@.len() as nat,
                                    ));
                                }
                            } else {
                                assert(database@[w2] == db_pre[w2]);
                            }
                        }
                        assert forall|w2: Seq<char>, x: usize|
                            database@.contains_key(w2) && #[trigger] bit_of(
                                database@[w2],
                                x as nat,
                            ) implies x < article_titles@.len() by {
                            if w2 == words@[j as int]@ {
                                assert(bits_set_all(database@[w2]).contains(x));
                                if x != id {
                                    assert(bits_set_all(
                                        blocks_of(db_pre, w2),
                                    ).contains(x));
                                    assert(bit_of(blocks_of(db_pre, w2), x as nat));
                                    if db_pre.contains_key(w2) {
                                        assert(bit_of(db_pre[w2], x as nat));
                                    }
                                }
                            } else {
                                assert(database@[w2] == db_pre[w2]);
                                assert(bit_of(db_pre[w2], x as nat));
                            }
                        }
                    }
                    j += 1;
                }
                proof {
                    assert(words@.take(words@.len() as int) =~= words@);
                    let r = crate::index::index8_0::build_index_spec(
                        Map::<Seq<char>, Seq<usize>>::empty(),
                        Seq::<String>::empty(),
                        all.take(i + 1),
                    );
                    let pre = crate::index::index8_0::build_index_spec(
                        Map::<Seq<char>, Seq<usize>>::empty(),
                        Seq::<String>::empty(),
                        all.take(i as int),
                    );
                    let a = all[i as int];
                    assert(pre.0 == dbl0);
                    assert(a.1@ == words@);
                    assert(pre.1.len() == id);
                    assert(r.0 == crate::index::index8_0::add_words(
                        pre.0,
                        a.1@,
                        pre.1.len() as usize,
                    ));
                    assert(pre.1.len() as usize == id);
                    assert(r.0 == crate::index::index8_0::add_words(dbl0, words@, id));
                    assert(article_titles@ == r.1);
                }
            }
            i += 1;
        }
        proof {
            assert(all.take(all.len() as int) =~= all);
        }
        Index { database, article_titles }
    }

    /// Map each set bit to its article title, silently skipping any bit
    /// past the title count.
    pub fn bitvec_to_articlelist(&self, bitvecs: Vec<u64>) -> (output: ArticleTitles)
        ensures
            output@ == ids_to_titles(
                sorted_list_of(bits_set(bitvecs@, self.article_titles@.len() as nat)),
                self.article_titles@,
            ),
    {
        let ids = bitvec_ids(&bitvecs, self.article_titles.len());
        proof {
            lemma_sorted_list_of(ids@);
            assert(ids@.to_set() =~= bits_set(bitvecs@, self.article_titles@.len() as nat));
        }
        titles_of_ids(&ids, &self.article_titles)
    }

    /// The titles of the articles holding `word`.
    pub fn single_search(&self, word: &String) -> (result: ArticleTitles)
        requires
            self.wf7(),
        ensures
            result@ == ids_to_titles(
                sorted_list_of(bits_set(self.database.blocks(word@), self.article_titles@.len() as nat)),
                self.article_titles@,
            ),
    {
        self.bitvec_to_articlelist(self.database.get_or_empty(word.as_str()))
    }

    /// Evaluate a boolean syntax tree over the bit-packed postings.  For
    /// every article id the result's bit agrees with the set the tree
    /// denotes; bits past the article count carry no meaning.
    pub fn evaluate_syntax_tree(&self, node: AstNode) -> (result: Vec<u64>)
        requires
            self.wf7(),
        ensures
            result@.len() == blocks_for(self.article_titles@.len() as nat),
            forall|x: usize|
                x < self.article_titles@.len() ==> (bit_of(result@, x as nat)
                    <==> #[trigger] eval_sets(
                    self.set_model(),
                    self.article_titles@.len() as nat,
                    ast_view(node),
                ).contains(x)),
        decreases node,
    {
        let ghost n = self.article_titles@.len() as nat;
        let nb = blocks_needed(self.article_titles.len());
        match node {
            AstNode::Invert(child) => {
                let c = self.evaluate_syntax_tree(*child);
                let result = not_blocks(&c);
                proof {
                    assert forall|x: usize| x < n implies (bit_of(result@, x as nat)
                        <==> #[trigger] eval_sets(self.set_model(), n, ast_view(node)).contains(
                        x,
                    )) by {
                        lemma_id_block(x as nat, n);
                        assert(bit_of(c@, x as nat) <==> eval_sets(
                            self.set_model(),
                            n,
                            ast_view(*child),
                        ).contains(x));
                    }
                }
                result
            },
            AstNode::Binary(BinaryOp::And, left_child, right_child) => {
                let l = self.evaluate_syntax_tree(*left_child);
                let r = self.evaluate_syntax_tree(*right_child);
                let result = and_blocks(&l, &r);
                proof {
                    assert forall|x: usize| x < n implies (bit_of(result@, x as nat)
                        <==> #[trigger] eval_sets(self.set_model(), n, ast_view(node)).contains(
                        x,
                    )) by {
                        assert(bit_of(l@, x as nat) <==> eval_sets(
                            self.set_model(),
                            n,
                            ast_view(*left_child),
                        ).contains(x));
                        assert(bit_of(r@, x as nat) <==> eval_sets(
                            self.set_model(),
                            n,
                            ast_view(*right_child),
                        ).contains(x));
                    }
                }
                result
            },
            AstNode::Binary(BinaryOp::Or, left_child, right_child) => {
                let l = self.evaluate_syntax_tree(*left_child);
                let r = self.evaluate_syntax_tree(*right_child);
                let result = or_blocks(&l, &r);
                proof {
                    assert forall|x: usize| x < n implies (bit_of(result@, x as nat)
                        <==> #[trigger] eval_sets(self.set_model(), n, ast_view(node)).contains(
                        x,
                    )) by {
                        assert(bit_of(l@, x as nat) <==> eval_sets(
                            self.set_model(),
                            n,
                            ast_view(*left_child),
                        ).contains(x));
                        assert(bit_of(r@, x as nat) <==> eval_sets(
                            self.set_model(),
                            n,
                            ast_view(*right_child),
                        ).contains(x));
                    }
                }
                result
            },
            AstNode::Name(word) => {
                let v = self.database.get_or_empty(word.as_str());
                let result = pad_blocks(v, nb);
                proof {
                    assert forall|x: usize| x < n implies (bit_of(result@, x as nat)
                        <==> #[trigger] eval_sets(self.set_model(), n, ast_view(node)).contains(
                        x,
                    )) by {
                        if self.database@.contains_key(word@) {
                            assert(self.set_model()[word@].contains(x) <==> bit_of(
                                self.database@[word@],
                                x as nat,
                            ));
                        }
                    }
                }
                result
            },
        }
    }

    /// Answer a boolean query string over the bit-packed index: the
    /// titles of exactly the articles the query denotes, in ascending id
    /// order.  A malformed or empty query yields no titles.
    pub fn boolean_search(&self, exp: &String) -> (result: ArticleTitles)
        requires
            self.wf7(),
            exp@.len() < usize::MAX,
        ensures
            result@ == ids_to_titles(
                sorted_list_of(
                    query_eval_sets(
                        self.set_model(),
                        self.article_titles@.len() as nat,
                        exp@,
                    ),
                ),
                self.article_titles@,
            ),
    {
        let ghost n = self.article_titles@.len() as nat;
        match Expr::from_string(exp) {
            Ok(Expr(ExprData::HasNodes(node))) => {
                let bits = self.evaluate_syntax_tree(node);
                let result = self.bitvec_to_articlelist(bits);
                proof {
                    crate::index::lemma_eval_sets_bounded(self.set_model(), n, ast_view(node));
                    assert(bits_set(bits@, n) =~= query_eval_sets(self.set_model(), n, exp@));
                }
                result
            },
            _ => {
                proof {
                    assert(query_eval_sets(self.set_model(), n, exp@) =~= Set::<
                        usize,
                    >::empty());
                    assert(Seq::<usize>::empty().to_set() =~= Set::<usize>::empty());
                    lemma_sorted_list_of(Seq::<usize>::empty());
                    assert(ids_to_titles(Seq::<usize>::empty(), self.article_titles@) =~= Seq::<
                        String,
                    >::empty());
                }
                Vec::new()
            },
        }
    }
}

/// How many 64-bit blocks cover `n` articles, without overflowing.
pub fn blocks_needed(n: usize) -> (r: usize)
    ensures
        r == blocks_for(n as nat),
{
    let r = n / 64 + if n % 64 != 0 {
        1
    } else {
        0
    };
    proof {
        vstd::arithmetic::div_mod::lemma_fundamental_div_mod(n as int, 64);
    }
    r
}

/// A list of article ids as a bit-packed set of `nblocks` blocks.
pub fn list_to_bitvec(ids: &Vec<usize>, nblocks: usize) -> (r: Vec<u64>)
    requires
        forall|i: int| 0 <= i < ids@.len() ==> ((#[trigger] ids@[i]) as nat) / 64 < nblocks,
    ensures
        r@.len() == nblocks,
        forall|x: usize| #[trigger] bit_of(r@, x as nat) <==> ids@.contains(x),
{
    let zeros: Vec<u64> = Vec::new();
    let mut r = pad_blocks(zeros, nblocks);
    let mut k: usize = 0;
    while k < ids.len()
        invariant
            k <= ids@.len(),
            forall|i: int|
                0 <= i < ids@.len() ==> ((#[trigger] ids@[i]) as nat) / 64 < nblocks,
            r@.len() == nblocks,
            forall|x: usize|
                #[trigger] bit_of(r@, x as nat) <==> ids@.take(k as int).contains(x),
        decreases ids@.len() - k,
    {
        let id = ids[k];
        let b = id / 64;
        let s = (id % 64) as u64;
        let ghost pre = r@;
        let blk = r[b];
        r.set(b, blk | (1u64 << s));
        proof {
            assert(ids@.take(k + 1) =~= ids@.take(k as int).push(ids@[k as int]));
            assert(ids@.take(k + 1)[k as int] == id);
            assert forall|x: usize| #[trigger]
                bit_of(r@, x as nat) <==> ids@.take(k + 1).contains(x) by {
                if ids@.take(k + 1).contains(x) {
                    let t = ids@.take(k + 1);
                    let m = choose|m: int| 0 <= m < t.len() && t[m] == x;
                    assert(ids@[m] == x);
                    if (x as nat) / 64 == b {
                        lemma_set_bit(pre[b as int], s, ((x as nat) % 64) as u64);
                    }
                    if m < k {
                        assert(ids@.take(k as int)[m] == x);
                        assert(ids@.take(k as int).contains(x));
                        assert(bit_of(pre, x as nat));
                    } else {
                        assert(x == id);
                    }
                    assert(bit_of(r@, x as nat));
                }
                if bit_of(r@, x as nat) {
                    if (x as nat) / 64 == b {
                        lemma_set_bit(pre[b as int], s, ((x as nat) % 64) as u64);
                        if ((x as nat) % 64) as u64 == s {
                            lemma_bit_address(x as nat, id as nat);
                            assert(x == id);
                            assert(ids@.take(k + 1).contains(x));
                        } else {
                            assert(bit_of(pre, x as nat));
                            assert(ids@.take(k as int).contains(x));
                            let m = choose|m: int|
                                0 <= m < k && ids@.take(k as int)[m] == x;
                            assert(ids@.take(k + 1)[m] == x);
                        }
                    } else {
                        assert(r@[((x as nat) / 64) as int] == pre[((x as nat) / 64)
                            as int]);
                        assert(bit_of(pre, x as nat));
                        assert(ids@.take(k as int).contains(x));
                        let m = choose|m: int| 0 <= m < k && ids@.take(k as int)[m] == x;
                        assert(ids@.take(k + 1)[m] == x);
                    }
                }
            }
        }
        k += 1;
    }
    proof {
        assert(ids@.take(ids@.len() as int) =~= ids@);
    }
    r
}

impl Search for Index<BitMap> {
    open spec fn supports(&self, query: &Query) -> bool {
        &&& self.wf7()
        &&& query.search_string@.len() < usize::MAX
        &&& match query.search_type {
            SearchType::SingleWordSearch => true,
            SearchType::BooleanSearch(_) => true,
            _ => false,
        }
    }

    /// Dispatch: the single word lookup or the bit-packed boolean
    /// evaluation, both returning titles in ascending id order.
    fn search(&self, query: &Query) -> (result: ArticleTitles)
        ensures
            match query.search_type {
                SearchType::SingleWordSearch => result@ == ids_to_titles(
                    sorted_list_of(
                        bits_set(
                            self.database.blocks(query.search_string@),
                            self.article_titles@.len() as nat,
                        ),
                    ),
                    self.article_titles@,
                ),
                SearchType::BooleanSearch(_) => result@ == ids_to_titles(
                    sorted_list_of(
                        query_eval_sets(
                            self.set_model(),
                            self.article_titles@.len() as nat,
                            query.search_string@,
                        ),
                    ),
                    self.article_titles@,
                ),
                _ => true,
            },
    {
        match &query.search_type {
            SearchType::SingleWordSearch => self.single_search(&query.search_string),
            SearchType::BooleanSearch(_) => self.boolean_search(&query.search_string),
            _ => {
                proof {
                    assert(false);
                }
                unreached()
            },
        }
    }
}

} // verus!
