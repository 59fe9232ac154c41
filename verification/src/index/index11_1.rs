//! The exact layer over the triple index.
//!
//! Exact triple search runs the same candidate filtering as fuzzy search
//! and then verifies each candidate by searching the article's stored
//! token text with Boyer-Moore.  Reading the per-article text store is
//! the surrounding program's part; the candidate filtering and the
//! verdict for one article are verified here.
use vstd::prelude::*;

use crate::bounded_by;
use crate::index::index10_0::occurs_at;
use crate::index::index10_1::{boyer_moore_preprocess, boyer_moore_truefalse};
use crate::index::index10_0::str_chars;
use crate::index::index11_0::{fuzzy_candidates, intersect_lists, lemma_candidates_absent, TripleMap};
use crate::index::index10_0::{split_whitespace_words, split_ws, str_seq_view};
use crate::index::Index;

verus! {

/// The candidate article ids of a triple query: the articles whose
/// postings appear in every width-3 window.  Empty when any window is
/// absent or the query is shorter than one window.
impl Index<TripleMap> {
    pub fn triples_candidates(&self, query: &String) -> (result: Vec<usize>)
        requires
            self.wf11(),
            query@.len() < usize::MAX,
        ensures
            bounded_by(result@, self.article_titles@.len() as nat),
            match fuzzy_candidates(self.database@, split_ws(query@), 0) {
                Some(cand) => result@.to_set() == cand,
                None => result@.len() == 0,
            },
    {
        let words = split_whitespace_words(query.as_str());
        let ghost wv = str_seq_view(words@);
        if words.len() < 3 {
            return Vec::new();
        }
        let n = words.len();
        let mut k = n - 3;
        if !self.database.contains(
            words[k].as_str(),
            words[k + 1].as_str(),
            words[k + 2].as_str(),
        ) {
            proof {
                lemma_candidates_absent(
                    self.database@,
                    wv,
                    k as int,
                );
            }
            return Vec::new();
        }
        let mut acc = self.database.get_or_empty(
            words[k].as_str(),
            words[k + 1].as_str(),
            words[k + 2].as_str(),
        );
        proof {
            assert(wv[k as int] == words@[k as int]@);
            assert(wv[k + 1] == words@[k + 1]@);
            assert(wv[k + 2] == words@[k + 2]@);
            assert(fuzzy_candidates(self.database@, wv, k as int) == Some(acc@.to_set()));
        }
        while k > 0
            invariant
                n == words@.len(),
                3 <= n,
                k <= n - 3,
                wv == str_seq_view(words@),
                wv == split_ws(query@),
                self.wf11(),
                fuzzy_candidates(self.database@, wv, k as int) == Some(acc@.to_set()),
                forall|i: int| 0 <= i < acc@.len() ==> (#[trigger] acc@[i])
                    < self.article_titles@.len(),
            decreases k,
        {
            k -= 1;
            proof {
                assert(wv[k as int] == words@[k as int]@);
                assert(wv[k + 1] == words@[k + 1]@);
                assert(wv[k + 2] == words@[k + 2]@);
            }
            if !self.database.contains(
                words[k].as_str(),
                words[k + 1].as_str(),
                words[k + 2].as_str(),
            ) {
                proof {
                    lemma_candidates_absent(
                        self.database@,
                        wv,
                        k as int,
                    );
                }
                return Vec::new();
            }
            let lst = self.database.get_or_empty(
                words[k].as_str(),
                words[k + 1].as_str(),
                words[k + 2].as_str(),
            );
            let next = intersect_lists(&lst, &acc);
            proof {
                assert(next@.to_set() =~= lst@.to_set().intersect(acc@.to_set()));
                assert forall|i: int|
                    0 <= i < next@.len() implies (#[trigger] next@[i])
                    < self.article_titles@.len() by {
                    assert(lst@.contains(next@[i]));
                    let m = choose|m: int| 0 <= m < lst@.len() && lst@[m] == next@[i];
                }
            }
            acc = next;
        }
        acc
    }

    /// Whether one candidate article's stored token text really holds the
    /// phrase, by Boyer-Moore: `true` exactly when the phrase occurs.
    pub fn verify_candidate_text(&self, query: &String, text: &String) -> (result: bool)
        requires
            2 <= query@.len() < 0x7FFF_FFFF,
            text@.len() + query@.len() < usize::MAX,
        ensures
            result == crate::contains_sub(text@, query@),
    {
        let p = str_chars(query.as_str());
        let t = str_chars(text.as_str());
        let (l_big, l_small, r, _n_arr) = boyer_moore_preprocess(&p);
        match boyer_moore_truefalse(&p, &t, (&l_big, &l_small, &r)) {
            Some(e) => {
                proof {
                    assert(occurs_at(text@, query@, e + 1 - query@.len()));
                }
                true
            },
            None => {
                proof {
                    assert forall|k: int| !occurs_at(text@, query@, k) by {
                        if occurs_at(text@, query@, k) {
                            assert(crate::index::index10_1::occurs_end(
                                text@,
                                query@,
                                k + query@.len() - 1,
                            ));
                        }
                    }
                }
                false
            },
        }
    }
}

} // verus!
