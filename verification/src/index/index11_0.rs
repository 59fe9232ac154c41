//! The triple (trigram) fuzzy index.
//!
//! A sliding window of three consecutive tokens maps to the postings of
//! the articles where that window occurs.  Fuzzy search intersects the
//! postings of every window of the query; it is a containment heuristic
//! and can report an article where the windows occur without the whole
//! phrase standing contiguously — intentional, documented behavior.
use vstd::prelude::*;

use crate::index::{appended, ids_to_titles, postings_of, ArticleTitles, Index, Query, Search,
    SearchType};
use crate::index::index10_0::{split_whitespace_words, split_ws, str_seq_view};
use vstd::hash_map::StringHashMap;

verus! {

/// The key a token triple is stored under: the tokens joined by single
/// spaces.  Tokens hold no whitespace, so the key is unambiguous.
pub open spec fn triple_key(a: Seq<char>, b: Seq<char>, c: Seq<char>) -> Seq<char> {
    a + seq![' '] + b + seq![' '] + c
}

/// A vocabulary of token triples: each maps to its postings list.
pub struct TripleMap {
    map: StringHashMap<Vec<usize>>,
}

impl View for TripleMap {
    type V = Map<Seq<char>, Seq<usize>>;

    closed spec fn view(&self) -> Map<Seq<char>, Seq<usize>> {
        Map::new(|w: Seq<char>| self.map@.contains_key(w), |w: Seq<char>| self.map@[w]@)
    }
}

/// The space-joined key of three tokens.
fn join_triple(t1: &str, t2: &str, t3: &str) -> (key: String)
    ensures
        key@ == triple_key(t1@, t2@, t3@),
{
    proof {
        reveal_strlit(" ");
        assert(" "@ =~= seq![' ']);
    }
    let key = t1.to_owned().concat(" ").concat(t2).concat(" ").concat(t3);
    proof {
        assert(key@ =~= triple_key(t1@, t2@, t3@));
    }
    key
}

impl TripleMap {
    pub fn new() -> (result: Self)
        ensures
            result@ == Map::<Seq<char>, Seq<usize>>::empty(),
    {
        let result = TripleMap { map: StringHashMap::new() };
        proof {
            assert(result@ =~= Map::<Seq<char>, Seq<usize>>::empty());
        }
        result
    }

    /// Store a postings list for a token triple.
    pub fn insert(&mut self, t1: &str, t2: &str, t3: &str, postings: Vec<usize>)
        ensures
            final(self)@ == old(self)@.insert(triple_key(t1@, t2@, t3@), postings@),
    {
        let key = join_triple(t1, t2, t3);
        self.map.insert(key, postings);
        proof {
            assert(self@ =~= old(self)@.insert(triple_key(t1@, t2@, t3@), postings@));
        }
    }

    /// The postings of a triple, or the empty list for an unknown one.
    pub fn get_or_empty(&self, t1: &str, t2: &str, t3: &str) -> (result: Vec<usize>)
        ensures
            result@ == postings_of(self@, triple_key(t1@, t2@, t3@)),
    {
        let key = join_triple(t1, t2, t3);
        match self.map.get(key.as_str()) {
            Some(v) => v.clone(),
            None => Vec::new(),
        }
    }

    /// Whether a triple has a postings list at all.
    pub fn contains(&self, t1: &str, t2: &str, t3: &str) -> (result: bool)
        ensures
            result == self@.contains_key(triple_key(t1@, t2@, t3@)),
    {
        let key = join_triple(t1, t2, t3);
        self.map.contains_key(key.as_str())
    }

    /// Record that article `id` holds this window: append `id` to the
    /// triple's postings unless it is already the last entry.
    pub fn add_occurrence(&mut self, t1: &str, t2: &str, t3: &str, id: usize)
        ensures
            final(self)@ == old(self)@.insert(
                triple_key(t1@, t2@, t3@),
                appended(postings_of(old(self)@, triple_key(t1@, t2@, t3@)), id),
            ),
    {
        let mut v = self.get_or_empty(t1, t2, t3);
        if v.len() == 0 {
            v.push(id);
        } else {
            let last = v[v.len() - 1];
            if last != id {
                v.push(id);
            }
        }
        proof {
            assert(v@ =~= appended(
                postings_of(old(self)@, triple_key(t1@, t2@, t3@)),
                id,
            ));
        }
        let key = join_triple(t1, t2, t3);
        self.map.insert(key, v);
        proof {
            assert(self@ =~= old(self)@.insert(triple_key(t1@, t2@, t3@), v@));
        }
    }
}

/// One article's windows folded into the triple vocabulary, left to
/// right from window position `i`.
pub open spec fn add_triples(
    db: Map<Seq<char>, Seq<usize>>,
    words: Seq<String>,
    i: int,
    id: usize,
) -> Map<Seq<char>, Seq<usize>>
    decreases words.len() - i,
{
    if i < 0 || i + 3 > words.len() {
        db
    } else {
        let key = triple_key(words[i]@, words[i + 1]@, words[i + 2]@);
        add_triples(db.insert(key, appended(postings_of(db, key), id)), words, i + 1, id)
    }
}

/// The whole build: every article's windows folded in corpus order.
pub open spec fn build_triples(
    db: Map<Seq<char>, Seq<usize>>,
    titles: Seq<String>,
    articles: Seq<(String, Vec<String>)>,
) -> (Map<Seq<char>, Seq<usize>>, Seq<String>)
    decreases articles.len(),
{
    if articles.len() == 0 {
        (db, titles)
    } else {
        let (title, words) = articles[0];
        if title@.len() == 0 {
            build_triples(db, titles, articles.drop_first())
        } else {
            build_triples(
                add_triples(db, words@, 0, titles.len() as usize),
                titles.push(title),
                articles.drop_first(),
            )
        }
    }
}

/// The candidate set of a fuzzy query: the intersection of the postings
/// of every window from position `i` on, `None` when a window is absent.
pub open spec fn fuzzy_candidates(
    db: Map<Seq<char>, Seq<usize>>,
    words: Seq<Seq<char>>,
    i: int,
) -> Option<Set<usize>>
    decreases words.len() - i,
{
    if i < 0 || i + 3 > words.len() {
        None
    } else {
        let key = words[i] + seq![' '] + words[i + 1] + seq![' '] + words[i + 2];
        if !db.contains_key(key) {
            None
        } else if i + 3 == words.len() {
            Some(db[key].to_set())
        } else {
            match fuzzy_candidates(db, words, i + 1) {
                None => None,
                Some(s) => Some(db[key].to_set().intersect(s)),
            }
        }
    }
}

/// What a fuzzy query returns, as a set of titles: the titles of the
/// candidate set, or nothing when any window is absent or the query is
/// shorter than one window.
pub open spec fn fuzzy_titles_set(
    db: Map<Seq<char>, Seq<usize>>,
    titles: Seq<String>,
    s: Seq<char>,
) -> Set<String> {
    match fuzzy_candidates(db, split_ws(s), 0) {
        Some(cand) => cand.map(|id: usize| titles[id as int]),
        None => Set::empty(),
    }
}

/// Keep the members of `a` that `b` also holds, in `a`'s order.
pub fn intersect_lists(a: &Vec<usize>, b: &Vec<usize>) -> (r: Vec<usize>)
    ensures
        forall|x: usize| #[trigger] r@.contains(x) <==> (a@.contains(x) && b@.contains(x)),
        forall|i: int| 0 <= i < r@.len() ==> a@.contains(#[trigger] r@[i]),
{
    let mut r: Vec<usize> = Vec::new();
    let mut k: usize = 0;
    while k < a.len()
        invariant
            k <= a@.len(),
            forall|x: usize|
                #[trigger] r@.contains(x) <==> (a@.take(k as int).contains(x) && b@.contains(
                    x,
                )),
            forall|i: int| 0 <= i < r@.len() ==> a@.contains(#[trigger] r@[i]),
        decreases a@.len() - k,
    {
        let x = a[k];
        let ghost pre = r@;
        if contains_id(b, x) {
            r.push(x);
        }
        proof {
            assert(a@.take(k + 1) =~= a@.take(k as int).push(a@[k as int]));
            assert(a@.take(k + 1)[k as int] == x);
            assert(a@.contains(x));
            assert forall|y: usize| #[trigger]
                r@.contains(y) <==> (a@.take(k + 1).contains(y) && b@.contains(y)) by {
                if r@.contains(y) {
                    let m = choose|m: int| 0 <= m < r@.len() && r@[m] == y;
                    if m < pre.len() {
                        assert(pre[m] == y);
                        assert(pre.contains(y));
                        let m2 = choose|m2: int|
                            0 <= m2 < k && a@.take(k as int)[m2] == y;
                        assert(a@.take(k + 1)[m2] == y);
                    } else {
                        assert(y == x);
                        assert(a@.take(k + 1).contains(y));
                    }
                }
                if a@.take(k + 1).contains(y) && b@.contains(y) {
                    let t = a@.take(k + 1);
                    let m = choose|m: int| 0 <= m < t.len() && t[m] == y;
                    if m < k {
                        assert(a@.take(k as int)[m] == y);
                        assert(pre.contains(y));
                        let m2 = choose|m2: int| 0 <= m2 < pre.len() && pre[m2] == y;
                        assert(r@[m2] == y);
                    } else {
                        assert(y == x);
                        assert(r@[r@.len() - 1] == x);
                    }
                }
            }
        }
        k += 1;
    }
    proof {
        assert(a@.take(a@.len() as int) =~= a@);
    }
    r
}

/// Linear membership test on an unordered id list.
fn contains_id(v: &Vec<usize>, x: usize) -> (r: bool)
    ensures
        r == v@.contains(x),
{
    let mut k: usize = 0;
    while k < v.len()
        invariant
            k <= v@.len(),
            forall|i: int| 0 <= i < k ==> #[trigger] v@[i] != x,
        decreases v@.len() - k,
    {
        if v[k] == x {
            return true;
        }
        k += 1;
    }
    proof {
        if v@.contains(x) {
            let i = choose|i: int| 0 <= i < v@.len() && v@[i] == x;
            assert(false);
        }
    }
    false
}

impl Index<TripleMap> {
    /// Well-formed: every postings list names existing articles.
    pub open spec fn wf11(&self) -> bool {
        forall|w: Seq<char>, i: int|
            self.database@.contains_key(w) && 0 <= i < self.database@[w].len() ==> (
            #[trigger] self.database@[w][i]) < self.article_titles@.len()
    }

    /// Build the triple index from an article stream: each article with a
    /// nonempty title takes the next id, and every width-3 window of its
    /// words gains that id at the end of its postings, once.
    pub fn index11(articles: &Vec<(String, Vec<String>)>) -> (result: Index<TripleMap>)
        ensures
            result.wf11(),
            (result.database@, result.article_titles@) == build_triples(
                Map::<Seq<char>, Seq<usize>>::empty(),
                Seq::<String>::empty(),
                articles@,
            ),
    {
        let mut database = TripleMap::new();
        let mut article_titles: Vec<String> = Vec::new();
        let ghost all = articles@;
        let ghost target = build_triples(
            Map::<Seq<char>, Seq<usize>>::empty(),
            Seq::<String>::empty(),
            all,
        );
        proof {
            assert(all.skip(0) =~= all);
        }
        let mut i: usize = 0;
        while i < articles.len()
            invariant
                i <= all.len(),
                articles@ == all,
                article_titles@.len() <= i,
                target == build_triples(
                    Map::<Seq<char>, Seq<usize>>::empty(),
                    Seq::<String>::empty(),
                    all,
                ),
                build_triples(database@, article_titles@, all.skip(i as int)) == target,
                forall|w: Seq<char>, q: int|
                    database@.contains_key(w) && 0 <= q < database@[w].len() ==> (
                    #[trigger] database@[w][q]) < article_titles@.len(),
            decreases all.len() - i,
        {
            proof {
                assert(all.skip(i as int)[0] == all[i as int]);
                assert(all.skip(i as int).drop_first() =~= all.skip(i + 1));
            }
            let title = &articles[i].0;
            if title.as_str().unicode_len() != 0 {
                article_titles.push(title.clone());
                let id = article_titles.len() - 1;
                let words = &articles[i].1;
                let ghost db0 = database@;
                let mut j: usize = 0;
                if words.len() >= 3 {
                    while j < words.len() - 2
                        invariant
                            3 <= words@.len(),
                            j <= words@.len() - 2,
                            id + 1 == article_titles@.len(),
                            add_triples(database@, words@, j as int, id) == add_triples(
                                db0,
                                words@,
                                0,
                                id,
                            ),
                            forall|w: Seq<char>, q: int|
                                database@.contains_key(w) && 0 <= q < database@[w].len()
                                    ==> (#[trigger] database@[w][q])
                                    < article_titles@.len(),
                        decreases words@.len() - j,
                    {
                        let ghost dbp = database@;
                        database.add_occurrence(
                            words[j].as_str(),
                            words[j + 1].as_str(),
                            words[j + 2].as_str(),
                            id,
                        );
                        proof {
                            let key = triple_key(
                                words@[j as int]@,
                                words@[j + 1]@,
                                words@[j + 2]@,
                            );
                            assert forall|w: Seq<char>, q: int|
                                database@.contains_key(w) && 0 <= q
                                    < database@[w].len() implies (
                            #[trigger] database@[w][q]) < article_titles@.len() by {
                                if w == key {
                                    let lst = appended(postings_of(dbp, key), id);
                                    let old_lst = postings_of(dbp, key);
                                    if q < old_lst.len() && lst[q] == old_lst[q] {
                                        if dbp.contains_key(key) {
                                        }
                                    }
                                    assert(lst[q] < article_titles@.len());
                                } else {
                                }
                            }
                        }
                        j += 1;
                    }
                }
                proof {
                    assert(add_triples(database@, words@, j as int, id) == database@);
                }
            }
            i += 1;
        }
        proof {
            assert(all.skip(all.len() as int).len() == 0);
        }
        Index { database, article_titles }
    }

    /// Answer a fuzzy phrase query: the titles of the articles whose
    /// postings appear in every width-3 window of the query.  A query
    /// shorter than one window, or one with an unknown window, yields no
    /// titles.
    pub fn fuzzy_triples_search(&self, query: &String) -> (result: ArticleTitles)
        requires
            self.wf11(),
            query@.len() < usize::MAX,
        ensures
            result@.to_set() == fuzzy_titles_set(
                self.database@,
                self.article_titles@,
                query@,
            ),
            forall|i: int|
                0 <= i < result@.len() ==> fuzzy_titles_set(
                    self.database@,
                    self.article_titles@,
                    query@,
                ).contains(#[trigger] result@[i]),
    {
        let words = split_whitespace_words(query.as_str());
        let ghost wv = str_seq_view(words@);
        if words.len() < 3 {
            proof {
                assert(Seq::<String>::empty().to_set() =~= Set::<String>::empty());
            }
            return Vec::new();
        }
        // Gather the last window first, then intersect leftwards, so the
        // accumulator mirrors the recursive candidate set.
        let n = words.len();
        let mut k = n - 3;
        if !self.database.contains(
            words[k].as_str(),
            words[k + 1].as_str(),
            words[k + 2].as_str(),
        ) {
            proof {
                lemma_candidates_absent(self.database@, wv, k as int);
                assert(Seq::<String>::empty().to_set() =~= Set::<String>::empty());
            }
            return Vec::new();
        }
        let mut acc = self.database.get_or_empty(
            words[k].as_str(),
            words[k + 1].as_str(),
            words[k + 2].as_str(),
        );
        proof {
            assert(wv[k as int] == words@[k as int]@);
            assert(wv[k + 1] == words@[k + 1]@);
            assert(wv[k + 2] == words@[k + 2]@);
            assert(fuzzy_candidates(self.database@, wv, k as int) == Some(
                acc@.to_set(),
            ));
        }
        while k > 0
            invariant
                n == words@.len(),
                3 <= n,
                k <= n - 3,
                wv == str_seq_view(words@),
                wv == split_ws(query@),
                self.wf11(),
                fuzzy_candidates(self.database@, wv, k as int) == Some(acc@.to_set()),
                forall|i: int| 0 <= i < acc@.len() ==> (#[trigger] acc@[i])
                    < self.article_titles@.len(),
            decreases k,
        {
            k -= 1;
            proof {
                assert(wv[k as int] == words@[k as int]@);
                assert(wv[k + 1] == words@[k + 1]@);
                assert(wv[k + 2] == words@[k + 2]@);
            }
            if !self.database.contains(
                words[k].as_str(),
                words[k + 1].as_str(),
                words[k + 2].as_str(),
            ) {
                proof {
                    lemma_candidates_absent(self.database@, wv, k as int);
                    assert(Seq::<String>::empty().to_set() =~= Set::<String>::empty());
                }
                return Vec::new();
            }
            let lst = self.database.get_or_empty(
                words[k].as_str(),
                words[k + 1].as_str(),
                words[k + 2].as_str(),
            );
            let next = intersect_lists(&lst, &acc);
            proof {
                assert(next@.to_set() =~= lst@.to_set().intersect(acc@.to_set()));
                assert forall|i: int|
                    0 <= i < next@.len() implies (#[trigger] next@[i])
                    < self.article_titles@.len() by {
                    assert(lst@.contains(next@[i]));
                    let key = triple_key(wv[k as int], wv[k + 1], wv[k + 2]);
                    let m = choose|m: int| 0 <= m < lst@.len() && lst@[m] == next@[i];
                }
            }
            acc = next;
        }
        proof {
            assert forall|i: int| 0 <= i < acc@.len() implies (#[trigger] acc@[i])
                < self.article_titles@.len() by {}
        }
        let result = titles_of_bounded(&acc, &self.article_titles);
        proof {
            let cand = acc@.to_set();
            let titles = self.article_titles@;
            assert(result@.to_set() =~= cand.map(|id: usize| titles[id as int])) by {
                assert forall|t: String|
                    #[trigger] result@.to_set().contains(t) implies cand.map(
                    |id: usize| titles[id as int],
                ).contains(t) by {
                    let m = choose|m: int| 0 <= m < result@.len() && result@[m] == t;
                    assert(result@[m] == titles[acc@[m] as int]);
                    assert(cand.contains(acc@[m]));
                }
                assert forall|t: String|
                    cand.map(|id: usize| titles[id as int]).contains(
                    t,
                ) implies #[trigger] result@.to_set().contains(t) by {
                    let id = choose|id: usize|
                        cand.contains(id) && titles[id as int] == t;
                    let m = choose|m: int| 0 <= m < acc@.len() && acc@[m] == id;
                    assert(result@[m] == t);
                }
            }
        }
        result
    }
}

/// When any window is absent, the whole candidate chain collapses.
pub proof fn lemma_candidates_absent(db: Map<Seq<char>, Seq<usize>>, wv: Seq<Seq<char>>, k: int)
    requires
        0 <= k,
        k + 3 <= wv.len(),
        !db.contains_key(wv[k] + seq![' '] + wv[k + 1] + seq![' '] + wv[k + 2]),
    ensures
        forall|i: int| 0 <= i <= k ==> fuzzy_candidates(db, wv, i) is None,
    decreases wv.len(),
{
    assert forall|i: int| 0 <= i <= k implies fuzzy_candidates(db, wv, i) is None by {
        lemma_candidates_absent_one(db, wv, i, k);
    }
}

proof fn lemma_candidates_absent_one(db: Map<Seq<char>, Seq<usize>>, wv: Seq<Seq<char>>, i: int, k: int)
    requires
        0 <= i <= k,
        k + 3 <= wv.len(),
        !db.contains_key(wv[k] + seq![' '] + wv[k + 1] + seq![' '] + wv[k + 2]),
    ensures
        fuzzy_candidates(db, wv, i) is None,
    decreases k - i,
{
    if i == k {
    } else {
        lemma_candidates_absent_one(db, wv, i + 1, k);
    }
}

/// Map each id of a bounded id list to its title.
fn titles_of_bounded(ids: &Vec<usize>, titles: &Vec<String>) -> (output: Vec<String>)
    requires
        forall|i: int| 0 <= i < ids@.len() ==> (#[trigger] ids@[i]) < titles@.len(),
    ensures
        output@.len() == ids@.len(),
        forall|i: int|
            0 <= i < output@.len() ==> #[trigger] output@[i] == titles@[ids@[i] as int],
{
    let mut output: Vec<String> = Vec::new();
    let mut k: usize = 0;
    while k < ids.len()
        invariant
            k <= ids@.len(),
            forall|i: int| 0 <= i < ids@.len() ==> (#[trigger] ids@[i]) < titles@.len(),
            output@.len() == k,
            forall|i: int|
                0 <= i < output@.len() ==> #[trigger] output@[i] == titles@[ids@[i] as int],
        decreases ids@.len() - k,
    {
        output.push(titles[ids[k]].clone());
        k += 1;
    }
    output
}

impl Search for Index<TripleMap> {
    open spec fn supports(&self, query: &Query) -> bool {
        &&& self.wf11()
        &&& query.search_string@.len() < usize::MAX
        &&& query.search_type is FuzzySearch
    }

    fn search(&self, query: &Query) -> ArticleTitles {
        self.fuzzy_triples_search(&query.search_string)
    }
}

} // verus!
