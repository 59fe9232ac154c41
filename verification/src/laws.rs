//! The laws the index structures obey, stated once over the
//! specifications the public contracts use.
use vstd::prelude::*;

use crate::index::index10_0::{is_border, kmp_table_wf};
use crate::index::index10_1::occurs_end;
use crate::index::index8_0::build_index_spec;
use crate::index::{eval_node, eval_sets, ids_to_titles, query_eval_sets, query_titles};
use crate::parsing::{parse_outcome, BinaryOp, SpecAst, SpecParse};
use crate::sorted_list_of;
use crate::universe;

verus! {

/// Rebuilding the index from the same article stream yields identical
/// postings for every term, and the same title sequence: the build is a
/// function of its input alone, as the builders' contracts pin it.
pub proof fn lemma_rebuild_identical(
    db1: Map<Seq<char>, Seq<usize>>,
    titles1: Seq<String>,
    db2: Map<Seq<char>, Seq<usize>>,
    titles2: Seq<String>,
    articles: Seq<(String, Vec<String>)>,
)
    requires
        (db1, titles1) == build_index_spec(
            Map::<Seq<char>, Seq<usize>>::empty(),
            Seq::<String>::empty(),
            articles,
        ),
        (db2, titles2) == build_index_spec(
            Map::<Seq<char>, Seq<usize>>::empty(),
            Seq::<String>::empty(),
            articles,
        ),
    ensures
        db1 == db2,
        titles1 == titles2,
{
}

/// Over one list-encoded index, the naive, DeMorgan, binary-search and
/// hybrid strategies and the bit-packed conversion answer every query
/// string with the same titles: each one's contract pins its result to
/// the same `query_titles`.
pub proof fn lemma_word_strategies_agree(
    db: Map<Seq<char>, Seq<usize>>,
    titles: Seq<String>,
    s: Seq<char>,
    r1: Seq<String>,
    r2: Seq<String>,
)
    requires
        r1 == query_titles(db, titles, s),
        r2 == query_titles(db, titles, s),
    ensures
        r1 == r2,
{
}

/// A boolean syntax tree denotes the same set over the bit-packed
/// vocabulary as over the list-encoded one, when the two store the same
/// abstract sets term for term.
pub proof fn lemma_eval_encodings_agree(
    dbl: Map<Seq<char>, Seq<usize>>,
    sets: Map<Seq<char>, Set<usize>>,
    n: nat,
    a: SpecAst,
)
    requires
        forall|w: Seq<char>| #[trigger] sets.contains_key(w) == dbl.contains_key(w),
        forall|w: Seq<char>|
            dbl.contains_key(w) ==> #[trigger] sets[w] == dbl[w].to_set(),
    ensures
        eval_sets(sets, n, a) == eval_node(dbl, n, a),
    decreases a,
{
    match a {
        SpecAst::Name(w) => {
            assert(eval_sets(sets, n, a) =~= eval_node(dbl, n, a));
        },
        SpecAst::Invert(child) => {
            lemma_eval_encodings_agree(dbl, sets, n, *child);
            assert(eval_sets(sets, n, a) =~= eval_node(dbl, n, a));
        },
        SpecAst::Binary(op, l, r) => {
            lemma_eval_encodings_agree(dbl, sets, n, *l);
            lemma_eval_encodings_agree(dbl, sets, n, *r);
            if op is And {
                assert(eval_sets(sets, n, a) =~= eval_node(dbl, n, a));
            } else {
                assert(eval_sets(sets, n, a) =~= eval_node(dbl, n, a));
            }
        },
    }
}

/// The bit-packed index answers every boolean query string with the same
/// titles as the list-encoded index, when the two store the same
/// abstract sets term for term.
pub proof fn lemma_boolean_encodings_agree(
    dbl: Map<Seq<char>, Seq<usize>>,
    sets: Map<Seq<char>, Set<usize>>,
    titles: Seq<String>,
    s: Seq<char>,
)
    requires
        forall|w: Seq<char>| #[trigger] sets.contains_key(w) == dbl.contains_key(w),
        forall|w: Seq<char>|
            dbl.contains_key(w) ==> #[trigger] sets[w] == dbl[w].to_set(),
    ensures
        ids_to_titles(
            sorted_list_of(query_eval_sets(sets, titles.len() as nat, s)),
            titles,
        ) == query_titles(dbl, titles, s),
{
    match parse_outcome(s) {
        SpecParse::Tree(a) => {
            lemma_eval_encodings_agree(dbl, sets, titles.len() as nat, a);
        },
        _ => {},
    }
}

/// Complementing twice gives back the set, restricted to the article
/// universe.
pub proof fn lemma_double_invert(db: Map<Seq<char>, Seq<usize>>, n: nat, a: SpecAst)
    ensures
        eval_node(db, n, SpecAst::Invert(Box::new(SpecAst::Invert(Box::new(a))))) == eval_node(
            db,
            n,
            a,
        ).intersect(universe(n)),
{
    reveal_with_fuel(eval_node, 4);
    let e = eval_node(db, n, a);
    assert(eval_node(db, n, SpecAst::Invert(Box::new(SpecAst::Invert(Box::new(a)))))
        == universe(n).difference(universe(n).difference(e)));
    assert(universe(n).difference(universe(n).difference(e)) =~= e.intersect(universe(n)));
}

/// De Morgan: the complement of a conjunction is the disjunction of the
/// complements.
pub proof fn lemma_demorgan_and(db: Map<Seq<char>, Seq<usize>>, n: nat, a: SpecAst, b: SpecAst)
    ensures
        eval_node(
            db,
            n,
            SpecAst::Invert(Box::new(SpecAst::Binary(BinaryOp::And, Box::new(a), Box::new(b)))),
        ) == eval_node(
            db,
            n,
            SpecAst::Binary(
                BinaryOp::Or,
                Box::new(SpecAst::Invert(Box::new(a))),
                Box::new(SpecAst::Invert(Box::new(b))),
            ),
        ),
{
    reveal_with_fuel(eval_node, 4);
    let ea = eval_node(db, n, a);
    let eb = eval_node(db, n, b);
    assert(universe(n).difference(ea.intersect(eb)) =~= universe(n).difference(ea).union(
        universe(n).difference(eb),
    ));
    assert(eval_node(
        db,
        n,
        SpecAst::Invert(Box::new(SpecAst::Binary(BinaryOp::And, Box::new(a), Box::new(b)))),
    ) =~= eval_node(
        db,
        n,
        SpecAst::Binary(
            BinaryOp::Or,
            Box::new(SpecAst::Invert(Box::new(a))),
            Box::new(SpecAst::Invert(Box::new(b))),
        ),
    ));
}

/// De Morgan: the complement of a disjunction is the conjunction of the
/// complements.
pub proof fn lemma_demorgan_or(db: Map<Seq<char>, Seq<usize>>, n: nat, a: SpecAst, b: SpecAst)
    ensures
        eval_node(
            db,
            n,
            SpecAst::Invert(Box::new(SpecAst::Binary(BinaryOp::Or, Box::new(a), Box::new(b)))),
        ) == eval_node(
            db,
            n,
            SpecAst::Binary(
                BinaryOp::And,
                Box::new(SpecAst::Invert(Box::new(a))),
                Box::new(SpecAst::Invert(Box::new(b))),
            ),
        ),
{
    reveal_with_fuel(eval_node, 4);
    let ea = eval_node(db, n, a);
    let eb = eval_node(db, n, b);
    assert(universe(n).difference(ea.union(eb)) =~= universe(n).difference(ea).intersect(
        universe(n).difference(eb),
    ));
    assert(eval_node(
        db,
        n,
        SpecAst::Invert(Box::new(SpecAst::Binary(BinaryOp::Or, Box::new(a), Box::new(b)))),
    ) =~= eval_node(
        db,
        n,
        SpecAst::Binary(
            BinaryOp::And,
            Box::new(SpecAst::Invert(Box::new(a))),
            Box::new(SpecAst::Invert(Box::new(b))),
        ),
    ));
}

/// The substring matchers report identical match-position lists: any two
/// strictly increasing lists holding exactly the occurrence end
/// positions of one pattern in one text — as the searchers' contracts
/// pin theirs — are the same list.
pub proof fn lemma_matchers_agree(
    t: Seq<char>,
    p: Seq<char>,
    ends1: Seq<usize>,
    ends2: Seq<usize>,
)
    requires
        crate::sorted_strict(ends1),
        forall|i: int| 0 <= i < ends1.len() ==> occurs_end(t, p, #[trigger] ends1[i] as int),
        forall|e: usize| occurs_end(t, p, e as int) ==> #[trigger] ends1.contains(e),
        crate::sorted_strict(ends2),
        forall|i: int| 0 <= i < ends2.len() ==> occurs_end(t, p, #[trigger] ends2[i] as int),
        forall|e: usize| occurs_end(t, p, e as int) ==> #[trigger] ends2.contains(e),
    ensures
        ends1 == ends2,
{
    assert forall|e: usize|
        ends1.to_set().contains(e) <==> ends2.to_set().contains(e) by {
        if ends1.contains(e) {
            let i = choose|i: int| 0 <= i < ends1.len() && ends1[i] == e;
            assert(occurs_end(t, p, ends1[i] as int));
        }
        if ends2.contains(e) {
            let i = choose|i: int| 0 <= i < ends2.len() && ends2[i] == e;
            assert(occurs_end(t, p, ends2[i] as int));
        }
    }
    assert(ends1.to_set() =~= ends2.to_set());
    crate::lemma_sorted_unique(ends1, ends2);
}

/// The failure-table contract pins the table: any two tables meeting it
/// for one pattern are equal, entry for entry.  In particular the
/// word-level and character-level builders agree whenever their patterns
/// have the same element-equality structure.
pub proof fn lemma_kmp_table_unique<T>(q: Seq<T>, t1: Seq<i32>, t2: Seq<i32>)
    requires
        kmp_table_wf(q, t1),
        kmp_table_wf(q, t2),
    ensures
        t1 == t2,
{
    assert forall|k: int| 0 <= k < t1.len() implies t1[k] == t2[k] by {
        if k == 0 {
        } else if k < q.len() {
            if t1[k] < t2[k] {
                assert(is_border(q, k, t2[k] as int));
                assert(q[t2[k] as int] == q[k]);
                assert(false);
            }
            if t2[k] < t1[k] {
                assert(is_border(q, k, t1[k] as int));
                assert(q[t1[k] as int] == q[k]);
                assert(false);
            }
        } else {
            assert(is_border(q, q.len() as int, t1[k] as int));
            assert(is_border(q, q.len() as int, t2[k] as int));
            assert(t1[k] <= t2[k] && t2[k] <= t1[k]);
        }
    }
    assert(t1 =~= t2);
}

} // verus!
