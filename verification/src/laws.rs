//! The laws of the query pipeline, stated over the specification model and
//! proved once for every dictionary text, query and mode.

use vstd::prelude::*;

use crate::collate::{
    key_is, lemma_sort_all_keys_equal, lemma_sort_by_key_multiset, lemma_sort_by_key_sorted,
    lemma_sort_by_key_stable, sorted_by_key,
};
use crate::matcher::{accepts, Mode};
use crate::normalize::normalize;
use crate::query_result;
use crate::scanner::{entries, lemma_filter_push, matched};

verus! {

/// Every query result is sorted ascending by key, is a permutation of the
/// records accepted by the matcher, consists only of records of the
/// dictionary text itself — the stored form, never a transformed one — and
/// never holds a record whose key fails the matcher for the query.
pub proof fn lemma_query_result_sorted(content: Seq<char>, query: Seq<char>, mode: Mode)
    ensures
        sorted_by_key(query_result(content, query, mode)),
        query_result(content, query, mode).to_multiset() == matched(
            content,
            query,
            mode,
        ).to_multiset(),
        forall|i: int|
            0 <= i < query_result(content, query, mode).len() ==> entries(content).contains(
                #[trigger] query_result(content, query, mode)[i],
            ),
        forall|i: int|
            0 <= i < query_result(content, query, mode).len() ==> accepts(
                query,
                (#[trigger] query_result(content, query, mode)[i]).0,
                mode,
            ),
{
    broadcast use vstd::seq_lib::group_to_multiset_ensures;

    let pred = |e: (Seq<char>, Seq<char>)| accepts(query, e.0, mode);
    let m = matched(content, query, mode);
    let r = query_result(content, query, mode);
    lemma_sort_by_key_sorted(m);
    lemma_sort_by_key_multiset(m);
    assert forall|i: int|
        0 <= i < r.len() implies entries(content).contains(#[trigger] r[i]) && accepts(
        query,
        r[i].0,
        mode,
    ) by {
        assert(r.contains(r[i]));
        assert(r.to_multiset().count(r[i]) > 0);
        assert(m.contains(r[i]));
        let j = choose|j: int| 0 <= j < m.len() && m[j] == r[i];
        entries(content).lemma_filter_contains_rev(pred, m[j]);
        entries(content).lemma_filter_pred(pred, j);
    }
}

/// The collator is stable: for every key, the records bearing that key
/// appear in the result in their scan order.
pub proof fn lemma_query_result_stable(content: Seq<char>, query: Seq<char>, mode: Mode, k: Seq<char>)
    ensures
        query_result(content, query, mode).filter(key_is(k)) == matched(
            content,
            query,
            mode,
        ).filter(key_is(k)),
{
    lemma_sort_by_key_stable(matched(content, query, mode), k);
}

/// Exact mode returns exactly the records whose key is ordinal-equal to the
/// query, in scan order: since every accepted key equals the query, the
/// stable sort is the identity, and duplicates keep their order.
pub proof fn lemma_exact_mode_characterization(content: Seq<char>, query: Seq<char>)
    ensures
        query_result(content, query, Mode::Exact) == entries(content).filter(key_is(query)),
{
    let pred = |e: (Seq<char>, Seq<char>)| accepts(query, e.0, Mode::Exact);
    assert(pred =~= key_is(query));
    let m = matched(content, query, Mode::Exact);
    assert forall|i: int| 0 <= i < m.len() implies (#[trigger] m[i]).0 == query by {
        entries(content).lemma_filter_pred(key_is(query), i);
    }
    lemma_sort_all_keys_equal(m, query);
}

/// Converted-mode results are invariant under any change of the query that
/// normalizes the same way, case changes and accent substitutions included.
pub proof fn lemma_converted_query_invariance(content: Seq<char>, q1: Seq<char>, q2: Seq<char>)
    requires
        normalize(q1) == normalize(q2),
    ensures
        query_result(content, q1, Mode::ConvertedWildcard) == query_result(
            content,
            q2,
            Mode::ConvertedWildcard,
        ),
{
    let p1 = |e: (Seq<char>, Seq<char>)| accepts(q1, e.0, Mode::ConvertedWildcard);
    let p2 = |e: (Seq<char>, Seq<char>)| accepts(q2, e.0, Mode::ConvertedWildcard);
    assert(p1 =~= p2);
}

/// A sequence with exactly one record satisfying the predicate filters to
/// exactly that record.
proof fn lemma_filter_single(
    s: Seq<(Seq<char>, Seq<char>)>,
    pred: spec_fn((Seq<char>, Seq<char>)) -> bool,
    i: int,
)
    requires
        0 <= i < s.len(),
        pred(s[i]),
        forall|j: int| 0 <= j < s.len() && j != i ==> !pred(#[trigger] s[j]),
    ensures
        s.filter(pred) == seq![s[i]],
    decreases s.len(),
{
    let dl = s.drop_last();
    assert(dl.push(s.last()) =~= s);
    lemma_filter_push(dl, s.last(), pred);
    assert(forall|j: int| 0 <= j < dl.len() ==> dl[j] == s[j]);
    if i == s.len() - 1 {
        assert(dl.all(|x: (Seq<char>, Seq<char>)| !pred(x)));
        dl.lemma_all_neg_filter_empty(pred);
        assert(dl.filter(pred) =~= Seq::<(Seq<char>, Seq<char>)>::empty());
        assert(s.filter(pred) =~= seq![s[i]]);
    } else {
        lemma_filter_single(dl, pred, i);
    }
}

/// Round trip: when all keys of the dictionary are distinct, an exact query
/// for any stored key returns exactly that one record, so querying every
/// key recovers the entire stored contents.
pub proof fn lemma_distinct_keys_round_trip(content: Seq<char>, i: int)
    requires
        forall|p: int, q: int|
            0 <= p < q < entries(content).len() ==> (#[trigger] entries(content)[p]).0 != (
            #[trigger] entries(content)[q]).0,
        0 <= i < entries(content).len(),
    ensures
        query_result(content, entries(content)[i].0, Mode::Exact) == seq![entries(content)[i]],
{
    let es = entries(content);
    let k = es[i].0;
    lemma_exact_mode_characterization(content, k);
    lemma_filter_single(es, key_is(k), i);
}

/// Queries are deterministic: two runs of the same query against the same
/// loaded text return the same ordered sequence, because each result is
/// pinned to `query_result`, a pure function of the text, the query and the
/// mode.
pub proof fn lemma_query_deterministic(
    r1: Seq<(String, String)>,
    r2: Seq<(String, String)>,
    content: Seq<char>,
    query: Seq<char>,
    mode: Mode,
)
    requires
        crate::scanner::pairs_view(r1) == query_result(content, query, mode),
        crate::scanner::pairs_view(r2) == query_result(content, query, mode),
    ensures
        crate::scanner::pairs_view(r1) == crate::scanner::pairs_view(r2),
{
}

/// An empty dictionary yields the empty result for every query and every
/// mode.
pub proof fn lemma_empty_content_empty_result(query: Seq<char>, mode: Mode)
    ensures
        query_result(Seq::<char>::empty(), query, mode) == Seq::<(Seq<char>, Seq<char>)>::empty(),
{
    let empty = Seq::<char>::empty();
    assert(entries(empty) =~= Seq::<(Seq<char>, Seq<char>)>::empty());
    entries(empty).lemma_all_neg_filter_empty(
        |e: (Seq<char>, Seq<char>)| accepts(query, e.0, mode),
    );
    assert(matched(empty, query, mode) =~= Seq::<(Seq<char>, Seq<char>)>::empty());
}

} // verus!
