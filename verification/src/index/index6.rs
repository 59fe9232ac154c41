//! The simplest index: each word maps straight to the titles of the
//! articles that hold it.
use vstd::prelude::*;

use crate::index::{ArticleTitles, Index, Query, Search, SearchType};
use vstd::hash_map::StringHashMap;

verus! {

/// Whether a title list already holds a title with this text.
pub open spec fn has_title(s: Seq<String>, tv: Seq<char>) -> bool {
    exists|i: int| 0 <= i < s.len() && (#[trigger] s[i])@ == tv
}

/// A title list after recording one more article: unchanged when the
/// title is already present anywhere, so the list stays a set.
pub open spec fn appended_title(s: Seq<String>, t: String) -> Seq<String> {
    if has_title(s, t@) {
        s
    } else {
        s.push(t)
    }
}

/// Linear membership test on a title list, by text.
fn contains_title(v: &Vec<String>, t: &String) -> (r: bool)
    ensures
        r == has_title(v@, t@),
{
    let mut k: usize = 0;
    while k < v.len()
        invariant
            k <= v@.len(),
            forall|i: int| 0 <= i < k ==> (#[trigger] v@[i])@ != t@,
        decreases v@.len() - k,
    {
        if v[k] == *t {
            proof {
                assert(v@[k as int]@ == t@);
            }
            return true;
        }
        k += 1;
    }
    proof {
        if has_title(v@, t@) {
            let i = choose|i: int| 0 <= i < v@.len() && (#[trigger] v@[i])@ == t@;
            assert(false);
        }
    }
    false
}

/// The titles a vocabulary holds for a word, none when absent.
pub open spec fn titles_of(db: Map<Seq<char>, Seq<String>>, w: Seq<char>) -> Seq<String> {
    if db.contains_key(w) {
        db[w]
    } else {
        Seq::empty()
    }
}

/// A vocabulary mapping each word to the titles of its articles.
pub struct TitleMap {
    map: StringHashMap<Vec<String>>,
}

impl View for TitleMap {
    type V = Map<Seq<char>, Seq<String>>;

    closed spec fn view(&self) -> Map<Seq<char>, Seq<String>> {
        Map::new(|w: Seq<char>| self.map@.contains_key(w), |w: Seq<char>| self.map@[w]@)
    }
}

impl TitleMap {
    pub fn new() -> (result: Self)
        ensures
            result@ == Map::<Seq<char>, Seq<String>>::empty(),
    {
        let result = TitleMap { map: StringHashMap::new() };
        proof {
            assert(result@ =~= Map::<Seq<char>, Seq<String>>::empty());
        }
        result
    }

    /// The titles of `word`, when the word occurs at all.
    pub fn get<'a>(&'a self, word: &str) -> (result: Option<&'a Vec<String>>)
        ensures
            match result {
                Some(v) => self@.contains_key(word@) && v@ == self@[word@],
                None => !self@.contains_key(word@),
            },
    {
        self.map.get(word)
    }

    /// The titles of `word`, or no titles for an unknown word.
    pub fn get_or_empty(&self, word: &str) -> (result: Vec<String>)
        ensures
            result@ == titles_of(self@, word@),
    {
        match self.map.get(word) {
            Some(v) => v.clone(),
            None => Vec::new(),
        }
    }

    /// Record that the article called `title` holds `word`: the title
    /// joins the word's list unless it is already there, so the list is
    /// semantically a set.
    pub fn add_occurrence(&mut self, word: &String, title: &String)
        ensures
            final(self)@ == old(self)@.insert(
                word@,
                appended_title(titles_of(old(self)@, word@), *title),
            ),
    {
        let mut v = self.get_or_empty(word.as_str());
        if !contains_title(&v, title) {
            v.push(title.clone());
        }
        proof {
            assert(v@ =~= appended_title(titles_of(old(self)@, word@), *title));
        }
        self.map.insert(word.clone(), v);
        proof {
            assert(self@ =~= old(self)@.insert(word@, v@));
        }
    }
}

/// One article's words folded into the vocabulary, left to right.
pub open spec fn add_words6(
    db: Map<Seq<char>, Seq<String>>,
    words: Seq<String>,
    title: String,
) -> Map<Seq<char>, Seq<String>>
    decreases words.len(),
{
    if words.len() == 0 {
        db
    } else {
        add_words6(
            db.insert(words[0]@, appended_title(titles_of(db, words[0]@), title)),
            words.drop_first(),
            title,
        )
    }
}

/// The whole build: every article's words folded in corpus order.
pub open spec fn build_titles_index(
    db: Map<Seq<char>, Seq<String>>,
    titles: Seq<String>,
    articles: Seq<(String, Vec<String>)>,
) -> (Map<Seq<char>, Seq<String>>, Seq<String>)
    decreases articles.len(),
{
    if articles.len() == 0 {
        (db, titles)
    } else {
        let (title, words) = articles[0];
        if title@.len() == 0 {
            build_titles_index(db, titles, articles.drop_first())
        } else {
            build_titles_index(
                add_words6(db, words@, title),
                titles.push(title),
                articles.drop_first(),
            )
        }
    }
}

impl Index<TitleMap> {
    /// Build the title index from an article stream: each word of an
    /// article with a nonempty title gains that title, once per article.
    pub fn index6(articles: &Vec<(String, Vec<String>)>) -> (result: Index<TitleMap>)
        ensures
            (result.database@, result.article_titles@) == build_titles_index(
                Map::<Seq<char>, Seq<String>>::empty(),
                Seq::<String>::empty(),
                articles@,
            ),
    {
        let mut database = TitleMap::new();
        let mut article_titles: Vec<String> = Vec::new();
        let ghost all = articles@;
        let ghost target = build_titles_index(
            Map::<Seq<char>, Seq<String>>::empty(),
            Seq::<String>::empty(),
            all,
        );
        proof {
            assert(all.skip(0) =~= all);
        }
        let mut i: usize = 0;
        while i < articles.len()
            invariant
                i <= all.len(),
                articles@ == all,
                target == build_titles_index(
                    Map::<Seq<char>, Seq<String>>::empty(),
                    Seq::<String>::empty(),
                    all,
                ),
                build_titles_index(database@, article_titles@, all.skip(i as int)) == target,
            decreases all.len() - i,
        {
            proof {
                assert(all.skip(i as int)[0] == all[i as int]);
                assert(all.skip(i as int).drop_first() =~= all.skip(i + 1));
            }
            let title = &articles[i].0;
            if title.as_str().unicode_len() != 0 {
                article_titles.push(title.clone());
                let words = &articles[i].1;
                let ghost db0 = database@;
                let ghost t = all[i as int].0;
                proof {
                    assert(words@.skip(0) =~= words@);
                }
                let mut j: usize = 0;
                while j < words.len()
                    invariant
                        j <= words@.len(),
                        t == all[i as int].0,
                        title == &articles@[i as int].0,
                        articles@ == all,
                        i < all.len(),
                        words == &articles@[i as int].1,
                        add_words6(database@, words@.skip(j as int), t) == add_words6(
                            db0,
                            words@,
                            t,
                        ),
                    decreases words@.len() - j,
                {
                    proof {
                        assert(words@.skip(j as int)[0] == words@[j as int]);
                        assert(words@.skip(j as int).drop_first() =~= words@.skip(j + 1));
                    }
                    database.add_occurrence(&words[j], title);
                    j += 1;
                }
                proof {
                    assert(words@.skip(words@.len() as int).len() == 0);
                }
            }
            i += 1;
        }
        proof {
            assert(all.skip(all.len() as int).len() == 0);
        }
        Index { database, article_titles }
    }

    /// The titles of the articles holding `word`.
    pub fn single_search(&self, word: &String) -> (result: ArticleTitles)
        ensures
            result@ == titles_of(self.database@, word@),
    {
        self.database.get_or_empty(word.as_str())
    }
}

impl Search for Index<TitleMap> {
    open spec fn supports(&self, query: &Query) -> bool {
        query.search_type is SingleWordSearch
    }

    fn search(&self, query: &Query) -> ArticleTitles {
        self.single_search(&query.search_string)
    }
}

} // verus!
