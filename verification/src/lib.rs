//! A small in-memory full-text retrieval engine.
//!
//! The crate builds inverted indexes over a corpus of titled articles and
//! answers four query families — boolean term queries, prefix queries,
//! exact phrase queries and fuzzy phrase queries — with several
//! interchangeable algorithmic strategies whose agreement is proved.
//!
//! Corpus loading, tokenization and the interactive dialog are external
//! collaborators: the indexes consume an ordered sequence of
//! `(title, token-sequence)` pairs, a parsed boolean syntax tree, and
//! on-demand access to an article's cleaned token text.
use vstd::prelude::*;

pub mod helpers;
pub mod index;
pub mod laws;
pub mod parsing;

verus! {

/// The earliest configuration shape: a query to run at once, the corpus
/// file, and the index number.
pub struct Config {
    pub query: String,
    pub file_path: String,
    pub indexno: String,
}

impl Config {
    /// Read the configuration from the program arguments: the query, the
    /// corpus file path and the index number, after the program name.
    pub fn build(args: &[String]) -> (result: Result<Config, &'static str>)
        ensures
            match result {
                Ok(config) => args@.len() >= 4 && config.query@ == args@[1]@
                    && config.file_path@ == args@[2]@ && config.indexno@ == args@[3]@,
                Err(_) => args@.len() < 4,
            },
    {
        if args.len() < 4 {
            return Err("not enough arguments");
        }

        let query = args[1].clone();
        let file_path = args[2].clone();
        let indexno = args[3].clone();

        Ok(Config { query, file_path, indexno })
    }
}

/// The delimiter word that separates articles in the raw corpus.
pub open spec fn delimiter_chars() -> Seq<char> {
    seq![
        '-',
        '-',
        '-',
        'E',
        'N',
        'D',
        '.',
        'O',
        'F',
        '.',
        'D',
        'O',
        'C',
        'U',
        'M',
        'E',
        'N',
        'T',
        '-',
        '-',
        '-',
    ]
}

/// The earliest index shape: every word maps straight to the titles of
/// the articles that hold it, built from the corpus's whitespace words.
pub struct Index {
    pub indexno: String,
    pub database: crate::index::index6::TitleMap,
}

/// The vocabulary after one corpus word: a delimiter word only switches
/// the state; the word after a delimiter names the next title and is
/// indexed under it, like every later word of that article.
pub open spec fn corpus_step(
    db: Map<Seq<char>, Seq<String>>,
    w: String,
    prev_delim: bool,
    title: Option<String>,
) -> (Map<Seq<char>, Seq<String>>, bool, Option<String>) {
    if w@ == delimiter_chars() {
        (db, true, title)
    } else if prev_delim {
        (
            db.insert(
                w@,
                crate::index::index6::appended_title(
                    crate::index::index6::titles_of(db, w@),
                    w,
                ),
            ),
            false,
            Some(w),
        )
    } else {
        match title {
            Some(t) => (
                db.insert(
                    w@,
                    crate::index::index6::appended_title(
                        crate::index::index6::titles_of(db, w@),
                        t,
                    ),
                ),
                false,
                title,
            ),
            None => (db, false, title),
        }
    }
}

/// The vocabulary the whole corpus word stream builds.
pub open spec fn corpus_build(
    db: Map<Seq<char>, Seq<String>>,
    words: Seq<String>,
    prev_delim: bool,
    title: Option<String>,
) -> Map<Seq<char>, Seq<String>>
    decreases words.len(),
{
    if words.len() == 0 {
        db
    } else {
        let (db1, pd1, t1) = corpus_step(db, words[0], prev_delim, title);
        corpus_build(db1, words.drop_first(), pd1, t1)
    }
}

impl Index {
    /// Build the word-to-titles index from the corpus's whitespace words:
    /// the first word, and each word after a delimiter, is the current
    /// article's title.
    pub fn build(indexno: String, words: &Vec<String>) -> (result: Index)
        ensures
            result.indexno@ == indexno@,
            result.database@ == corpus_build(
                Map::<Seq<char>, Seq<String>>::empty(),
                words@,
                true,
                None,
            ),
    {
        proof {
            reveal_strlit("---END.OF.DOCUMENT---");
            assert("---END.OF.DOCUMENT---"@ =~= delimiter_chars());
        }
        let delimiter: String = "---END.OF.DOCUMENT---".to_owned();
        let mut database = crate::index::index6::TitleMap::new();
        let mut prev_delim = true;
        let mut cur_title: Option<String> = None;
        let ghost all = words@;
        let ghost target = corpus_build(
            Map::<Seq<char>, Seq<String>>::empty(),
            all,
            true,
            None,
        );
        proof {
            assert(all.skip(0) =~= all);
        }
        let mut i: usize = 0;
        while i < words.len()
            invariant
                i <= all.len(),
                words@ == all,
                delimiter@ == delimiter_chars(),
                target == corpus_build(
                    Map::<Seq<char>, Seq<String>>::empty(),
                    all,
                    true,
                    None,
                ),
                corpus_build(database@, all.skip(i as int), prev_delim, cur_title) == target,
            decreases all.len() - i,
        {
            proof {
                assert(all.skip(i as int)[0] == all[i as int]);
                assert(all.skip(i as int).drop_first() =~= all.skip(i + 1));
            }
            let word = &words[i];
            if *word == delimiter {
                prev_delim = true;
            } else if prev_delim {
                database.add_occurrence(word, word);
                prev_delim = false;
                cur_title = Some(word.clone());
            } else {
                match &cur_title {
                    Some(t) => {
                        database.add_occurrence(word, t);
                        prev_delim = false;
                    },
                    None => {
                        prev_delim = false;
                    },
                }
            }
            i += 1;
        }
        proof {
            assert(all.skip(all.len() as int).len() == 0);
        }
        Index { indexno, database }
    }

    /// The titles of the articles holding `word`, when the word occurs at
    /// all.
    pub fn search<'a>(&'a self, word: &String) -> (result: Option<&'a Vec<String>>)
        ensures
            match result {
                Some(v) => self.database@.contains_key(word@) && v@ == self.database@[word@],
                None => !self.database@.contains_key(word@),
            },
    {
        self.database.get(word.as_str())
    }
}

/// `t` holds `p` as a contiguous substring.
pub open spec fn contains_sub(t: Seq<char>, p: Seq<char>) -> bool {
    exists|k: int| crate::index::index10_0::occurs_at(t, p, k)
}

/// Whether the text holds the pattern, by checking every alignment.
fn contains_chars(t: &Vec<char>, p: &Vec<char>) -> (r: bool)
    ensures
        r == contains_sub(t@, p@),
{
    let n = p.len();
    let m = t.len();
    if n > m {
        proof {
            assert(!contains_sub(t@, p@));
        }
        return false;
    }
    let mut k: usize = 0;
    while k <= m - n
        invariant
            n == p@.len(),
            m == t@.len(),
            n <= m,
            k <= m - n + 1,
            forall|kk: int|
                0 <= kk < k ==> !crate::index::index10_0::occurs_at(t@, p@, kk),
        decreases m - n - k + 1,
    {
        let mut j: usize = 0;
        while j < n && t[k + j] == p[j]
            invariant
                n == p@.len(),
                m == t@.len(),
                k + n <= m,
                j <= n,
                forall|jj: int| 0 <= jj < j ==> t@[k + jj] == p@[jj],
            decreases n - j,
        {
            j += 1;
        }
        if j == n {
            proof {
                assert(t@.subrange(k as int, k + p@.len()) =~= p@);
                assert(crate::index::index10_0::occurs_at(t@, p@, k as int));
            }
            return true;
        }
        proof {
            assert(!crate::index::index10_0::occurs_at(t@, p@, k as int)) by {
                if crate::index::index10_0::occurs_at(t@, p@, k as int) {
                    assert(t@.subrange(k as int, k + p@.len())[j as int] == p@[j as int]);
                }
            }
        }
        k += 1;
    }
    proof {
        if contains_sub(t@, p@) {
            let kk = choose|kk: int| crate::index::index10_0::occurs_at(t@, p@, kk);
            assert(kk <= m - n);
            assert(false);
        }
    }
    false
}

/// The length of the first line: the characters before the first line
/// feed.
pub open spec fn line_len(s: Seq<char>) -> nat
    decreases s.len(),
{
    if s.len() > 0 && s[0] != '\n' {
        1 + line_len(s.drop_first())
    } else {
        0
    }
}

/// A line with one carriage return stripped from its end.
pub open spec fn strip_cr(l: Seq<char>) -> Seq<char> {
    if l.len() > 0 && l[l.len() - 1] == '\r' {
        l.take(l.len() - 1)
    } else {
        l
    }
}

/// The lines of a text: split at line feeds, each terminated line loses
/// one trailing carriage return, and a final line ending is optional.
pub open spec fn spec_lines(s: Seq<char>) -> Seq<Seq<char>>
    decreases s.len(),
{
    if s.len() == 0 {
        Seq::empty()
    } else {
        let ll = if line_len(s) <= s.len() {
            line_len(s) as int
        } else {
            s.len() as int
        };
        if ll == s.len() {
            seq![s]
        } else {
            seq![strip_cr(s.take(ll))] + spec_lines(s.skip(ll + 1))
        }
    }
}

/// The views of a sequence of borrowed string slices.
pub open spec fn str_ref_views(ss: Seq<&str>) -> Seq<Seq<char>> {
    ss.map_values(|x: &str| x@)
}

/// The end of the line starting at position `i` of `s`.
fn scan_line(s: &str, i: usize) -> (j: usize)
    requires
        i <= s@.len(),
        s@.len() < usize::MAX,
    ensures
        i <= j <= s@.len(),
        j - i == line_len(s@.skip(i as int)),
    decreases s@.len() - i,
{
    let n = s.unicode_len();
    if i < n && s.get_char(i) != '\n' {
        proof {
            assert(s@.skip(i as int)[0] == s@[i as int]);
            assert(s@.skip(i as int).drop_first() =~= s@.skip(i + 1));
        }
        return scan_line(s, i + 1);
    }
    proof {
        if i < s@.len() {
            assert(s@.skip(i as int)[0] == s@[i as int]);
        } else {
            assert(s@.skip(i as int).len() == 0);
        }
    }
    i
}

/// Cut a text into its lines, borrowing from the text.
fn str_lines<'a>(s: &'a str) -> (lines: Vec<&'a str>)
    requires
        s@.len() < usize::MAX,
    ensures
        str_ref_views(lines@) == spec_lines(s@),
{
    let mut lines: Vec<&'a str> = Vec::new();
    let n = s.unicode_len();
    proof {
        assert(s@.skip(0) =~= s@);
        assert(str_ref_views(Seq::<&str>::empty()) + spec_lines(s@) =~= spec_lines(s@));
    }
    let mut i: usize = 0;
    while i < n
        invariant
            i <= n,
            n == s@.len(),
            s@.len() < usize::MAX,
            str_ref_views(lines@) + spec_lines(s@.skip(i as int)) == spec_lines(s@),
        decreases n - i,
    {
        let ghost pre = lines@;
        let ghost rest = s@.skip(i as int);
        let j = scan_line(s, i);
        let line: &'a str = if j > i && s.get_char(j - 1) == '\r' && j < n {
            s.substring_char(i, j - 1)
        } else {
            s.substring_char(i, j)
        };
        proof {
            assert(rest.take(line_len(rest) as int) =~= s@.subrange(i as int, j as int));
            if j > i && s@[j - 1] == '\r' && j < n {
                assert(s@.subrange(i as int, j as int)[j - i - 1] == s@[j - 1]);
                assert(line@ =~= strip_cr(rest.take(line_len(rest) as int)));
            } else if j < n {
                assert(line@ =~= strip_cr(rest.take(line_len(rest) as int)));
            } else {
                assert(line@ =~= rest);
            }
            assert(str_ref_views(pre.push(line)) =~= str_ref_views(pre) + seq![line@]);
        }
        lines.push(line);
        if j < n {
            proof {
                assert(rest.skip(line_len(rest) as int + 1) =~= s@.skip(j + 1));
                assert(str_ref_views(lines@) + spec_lines(s@.skip(j + 1)) =~= spec_lines(
                    s@,
                ));
            }
            i = j + 1;
        } else {
            proof {
                assert(spec_lines(rest) =~= seq![rest]);
                assert(str_ref_views(lines@) =~= spec_lines(s@));
                assert(s@.skip(n as int).len() == 0);
                assert(str_ref_views(lines@) + spec_lines(s@.skip(n as int)) =~= spec_lines(
                    s@,
                ));
            }
            i = n;
        }
    }
    proof {
        assert(s@.skip(n as int).len() == 0);
        assert(str_ref_views(lines@) =~= str_ref_views(lines@) + spec_lines(s@.skip(n as int)));
    }
    lines
}

/// The lines holding the query, in their text order.
pub open spec fn matching_lines(lines: Seq<Seq<char>>, q: Seq<char>) -> Seq<Seq<char>>
    decreases lines.len(),
{
    if lines.len() == 0 {
        Seq::empty()
    } else {
        let head = if contains_sub(lines[0], q) {
            seq![lines[0]]
        } else {
            Seq::empty()
        };
        head + matching_lines(lines.drop_first(), q)
    }
}

/// The lines of `contents` that hold `query` as a substring, in order.
pub fn search<'a>(query: &str, contents: &'a str) -> (results: Vec<&'a str>)
    requires
        contents@.len() < usize::MAX,
    ensures
        str_ref_views(results@) == matching_lines(spec_lines(contents@), query@),
{
    let mut results: Vec<&'a str> = Vec::new();
    let q = crate::index::index10_0::str_chars(query);
    let lines = str_lines(contents);
    let ghost lv = str_ref_views(lines@);
    proof {
        assert(lv.skip(0) =~= lv);
        assert(str_ref_views(Seq::<&str>::empty()) + matching_lines(lv, query@)
            =~= matching_lines(lv, query@));
    }
    let mut i: usize = 0;
    while i < lines.len()
        invariant
            i <= lines@.len(),
            q@ == query@,
            lv == str_ref_views(lines@),
            str_ref_views(results@) + matching_lines(lv.skip(i as int), query@)
                == matching_lines(lv, query@),
        decreases lines@.len() - i,
    {
        let ghost pre = results@;
        proof {
            assert(lv.skip(i as int)[0] == lv[i as int]);
            assert(lv[i as int] == lines@[i as int]@);
            assert(lv.skip(i as int).drop_first() =~= lv.skip(i + 1));
        }
        let line: &'a str = lines[i];
        let lc = crate::index::index10_0::str_chars(line);
        if contains_chars(&lc, &q) {
            results.push(line);
            proof {
                assert(str_ref_views(pre.push(line)) =~= str_ref_views(pre) + seq![line@]);
                assert(str_ref_views(results@) + matching_lines(lv.skip(i + 1), query@)
                    =~= matching_lines(lv, query@));
            }
        } else {
            proof {
                assert(str_ref_views(results@) + matching_lines(lv.skip(i + 1), query@)
                    =~= matching_lines(lv, query@));
            }
        }
        i += 1;
    }
    proof {
        assert(lv.skip(lines@.len() as int).len() == 0);
        assert(str_ref_views(results@) =~= str_ref_views(results@) + matching_lines(
            lv.skip(lines@.len() as int),
            query@,
        ));
    }
    results
}

/// A postings list is strictly increasing: ids are unique and sorted.
pub open spec fn sorted_strict(s: Seq<usize>) -> bool {
    forall|i: int, j: int| 0 <= i < j < s.len() ==> s[i] < s[j]
}

/// All ids of a postings list lie below the article universe bound `n`.
pub open spec fn bounded_by(s: Seq<usize>, n: nat) -> bool {
    forall|i: int| 0 <= i < s.len() ==> (#[trigger] s[i]) < n
}

/// The article universe: every id below the article count.
pub open spec fn universe(n: nat) -> Set<usize> {
    Set::new(|i: usize| i < n)
}

/// The one strictly increasing list holding exactly the members of `s`.
pub open spec fn sorted_list_of(s: Set<usize>) -> Seq<usize> {
    choose|q: Seq<usize>| sorted_strict(q) && q.to_set() == s
}

/// A strictly increasing list is the list of its member set.
pub proof fn lemma_sorted_list_of(ids: Seq<usize>)
    requires
        sorted_strict(ids),
    ensures
        sorted_list_of(ids.to_set()) == ids,
{
    let q = choose|q: Seq<usize>| sorted_strict(q) && q.to_set() == ids.to_set();
    assert(sorted_strict(ids) && ids.to_set() == ids.to_set());
    lemma_sorted_unique(q, ids);
}

/// Two strictly increasing lists with the same members are the same list.
pub proof fn lemma_sorted_unique(a: Seq<usize>, b: Seq<usize>)
    requires
        sorted_strict(a),
        sorted_strict(b),
        a.to_set() == b.to_set(),
    ensures
        a == b,
    decreases a.len(),
{
    if a.len() == 0 {
        if b.len() > 0 {
            assert(b.to_set().contains(b[0]));
            assert(a.to_set().contains(b[0]));
        }
        assert(a =~= b);
    } else {
        assert(a.to_set().contains(a[0]));
        if b.len() == 0 {
            assert(b.to_set().contains(a[0]));
            assert(false);
        }
        assert(b.to_set().contains(b[0]));
        // The heads are both the minimum of the shared member set.
        let ia = choose|i: int| 0 <= i < b.len() && b[i] == a[0];
        assert(b.to_set().contains(a[0]) && a.to_set().contains(b[0]));
        let ib = choose|i: int| 0 <= i < a.len() && a[i] == b[0];
        assert(b[0] <= b[ia] && a[0] <= a[ib]);
        assert(a[0] == b[0]);
        let at = a.drop_first();
        let bt = b.drop_first();
        assert forall|x: usize| at.to_set().contains(x) implies bt.to_set().contains(x) by {
            let i = choose|i: int| 0 <= i < at.len() && at[i] == x;
            assert(a[i + 1] == x);
            assert(a.to_set().contains(x));
            assert(b.to_set().contains(x));
            let j = choose|j: int| 0 <= j < b.len() && b[j] == x;
            assert(x > a[0]);
            assert(j != 0);
            assert(bt[j - 1] == x);
        }
        assert forall|x: usize| bt.to_set().contains(x) implies at.to_set().contains(x) by {
            let i = choose|i: int| 0 <= i < bt.len() && bt[i] == x;
            assert(b[i + 1] == x);
            assert(b.to_set().contains(x));
            assert(a.to_set().contains(x));
            let j = choose|j: int| 0 <= j < a.len() && a[j] == x;
            assert(x > b[0]);
            assert(j != 0);
            assert(at[j - 1] == x);
        }
        assert(at.to_set() =~= bt.to_set());
        lemma_sorted_unique(at, bt);
        assert(a =~= seq![a[0]] + at);
        assert(b =~= seq![b[0]] + bt);
    }
}

} // verus!
