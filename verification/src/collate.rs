//! The result collator: accepted records are sorted ascending by headword
//! under ordinal (code point) comparison, and records with equal headwords
//! keep their scan order. The sort is specified as an insertion sort that
//! places each new record after every record whose headword is less than or
//! equal to its own, which makes stability part of the definition.

use vstd::prelude::*;

use crate::scanner::pairs_view;

verus! {

/// Ordinal (code point) lexicographic order on character sequences:
/// `lex_le(a, b)` holds when `a` is equal to `b`, is a proper prefix of
/// `b`, or is smaller at the first position where they differ.
pub open spec fn lex_le(a: Seq<char>, b: Seq<char>) -> bool
    decreases a.len(),
{
    if a.len() == 0 {
        true
    } else if b.len() == 0 {
        false
    } else if (a[0] as u32) < (b[0] as u32) {
        true
    } else if (b[0] as u32) < (a[0] as u32) {
        false
    } else {
        lex_le(a.drop_first(), b.drop_first())
    }
}

/// The order is total: any two keys are comparable.
pub proof fn lemma_lex_le_total(a: Seq<char>, b: Seq<char>)
    ensures
        lex_le(a, b) || lex_le(b, a),
    decreases a.len(),
{
    if a.len() > 0 && b.len() > 0 && !((a[0] as u32) < (b[0] as u32)) && !((b[0] as u32) < (
    a[0] as u32)) {
        lemma_lex_le_total(a.drop_first(), b.drop_first());
    }
}

/// The order is transitive.
pub proof fn lemma_lex_le_trans(a: Seq<char>, b: Seq<char>, c: Seq<char>)
    requires
        lex_le(a, b),
        lex_le(b, c),
    ensures
        lex_le(a, c),
    decreases a.len(),
{
    if a.len() > 0 && b.len() > 0 && c.len() > 0 && (a[0] as u32) == (b[0] as u32) && (
    b[0] as u32) == (c[0] as u32) {
        lemma_lex_le_trans(a.drop_first(), b.drop_first(), c.drop_first());
    }
}

/// Executable comparison of two keys under `lex_le`.
pub fn str_le(a: &str, b: &str) -> (r: bool)
    ensures
        r == lex_le(a@, b@),
{
    let an = a.unicode_len();
    let bn = b.unicode_len();
    let mut i: usize = 0;
    proof {
        assert(a@.subrange(0, an as int) =~= a@);
        assert(b@.subrange(0, bn as int) =~= b@);
    }
    loop
        invariant
            0 <= i <= an,
            0 <= i <= bn,
            an == a@.len(),
            bn == b@.len(),
            lex_le(a@, b@) == lex_le(
                a@.subrange(i as int, an as int),
                b@.subrange(i as int, bn as int),
            ),
        decreases an - i,
    {
        let ghost sa = a@.subrange(i as int, an as int);
        let ghost sb = b@.subrange(i as int, bn as int);
        if i == an {
            return true;
        }
        if i == bn {
            return false;
        }
        let ca = a.get_char(i);
        let cb = b.get_char(i);
        if (ca as u32) < (cb as u32) {
            return true;
        }
        if (cb as u32) < (ca as u32) {
            return false;
        }
        proof {
            assert(sa.drop_first() =~= a@.subrange(i + 1 as int, an as int));
            assert(sb.drop_first() =~= b@.subrange(i + 1 as int, bn as int));
        }
        i = i + 1;
    }
}

/// Insert one record into a key-sorted sequence, after every record whose
/// key is less than or equal to its own.
pub open spec fn insert_sorted(s: Seq<(Seq<char>, Seq<char>)>, e: (Seq<char>, Seq<char>)) -> Seq<
    (Seq<char>, Seq<char>),
>
    decreases s.len(),
{
    if s.len() == 0 {
        seq![e]
    } else if lex_le(s.last().0, e.0) {
        s.push(e)
    } else {
        insert_sorted(s.drop_last(), e).push(s.last())
    }
}

/// Stable insertion sort by key: records are inserted in scan order, each
/// after all records with keys less than or equal to its own.
pub open spec fn sort_by_key(s: Seq<(Seq<char>, Seq<char>)>) -> Seq<(Seq<char>, Seq<char>)>
    decreases s.len(),
{
    if s.len() == 0 {
        seq![]
    } else {
        insert_sorted(sort_by_key(s.drop_last()), s.last())
    }
}

/// `insert_sorted` places the new record at the position found by scanning
/// from the back past every record whose key is not less than or equal to
/// the new key.
proof fn lemma_insert_sorted_at(s: Seq<(Seq<char>, Seq<char>)>, e: (Seq<char>, Seq<char>), j: int)
    requires
        0 <= j <= s.len(),
        forall|k: int| j <= k < s.len() ==> !lex_le(#[trigger] s[k].0, e.0),
        j > 0 ==> lex_le(s[j - 1].0, e.0),
    ensures
        insert_sorted(s, e) == s.insert(j, e),
    decreases s.len(),
{
    if s.len() == 0 {
        assert(insert_sorted(s, e) =~= s.insert(0, e));
    } else if lex_le(s.last().0, e.0) {
        assert(j == s.len());
        assert(s.push(e) =~= s.insert(j, e));
    } else {
        assert(j < s.len());
        let dl = s.drop_last();
        assert(forall|k: int| 0 <= k < dl.len() ==> dl[k] == s[k]);
        lemma_insert_sorted_at(dl, e, j);
        assert(insert_sorted(s, e) == dl.insert(j, e).push(s.last()));
        assert(dl.insert(j, e).push(s.last()) =~= s.insert(j, e));
    }
}

/// The keys of `s` appear in ascending `lex_le` order.
pub open spec fn sorted_by_key(s: Seq<(Seq<char>, Seq<char>)>) -> bool {
    forall|i: int, j: int| 0 <= i < j < s.len() ==> lex_le(#[trigger] s[i].0, #[trigger] s[j].0)
}

/// The predicate selecting records whose key is exactly `k`.
pub open spec fn key_is(k: Seq<char>) -> spec_fn((Seq<char>, Seq<char>)) -> bool {
    |e: (Seq<char>, Seq<char>)| e.0 == k
}

/// Inserting a record adds exactly that record: the contents, as a
/// multiset, gain `e` and nothing else.
pub proof fn lemma_insert_sorted_multiset(s: Seq<(Seq<char>, Seq<char>)>, e: (Seq<char>, Seq<char>))
    ensures
        insert_sorted(s, e).to_multiset() == s.to_multiset().insert(e),
    decreases s.len(),
{
    broadcast use vstd::seq_lib::group_to_multiset_ensures;
    broadcast use vstd::multiset::group_multiset_axioms;

    if s.len() == 0 {
        assert(seq![e] =~= Seq::<(Seq<char>, Seq<char>)>::empty().push(e));
        assert(insert_sorted(s, e).to_multiset() =~= s.to_multiset().insert(e));
    } else if lex_le(s.last().0, e.0) {
        assert(insert_sorted(s, e).to_multiset() =~= s.to_multiset().insert(e));
    } else {
        let dl = s.drop_last();
        lemma_insert_sorted_multiset(dl, e);
        assert(s =~= dl.push(s.last()));
        assert(insert_sorted(s, e).to_multiset() =~= dl.to_multiset().insert(e).insert(s.last()));
        assert(s.to_multiset().insert(e) =~= dl.to_multiset().insert(s.last()).insert(e));
        assert(dl.to_multiset().insert(e).insert(s.last()) =~= dl.to_multiset().insert(
            s.last(),
        ).insert(e));
    }
}

/// Every record of `insert_sorted(s, e)` is `e` or a record of `s`.
proof fn lemma_insert_sorted_membership(
    s: Seq<(Seq<char>, Seq<char>)>,
    e: (Seq<char>, Seq<char>),
)
    ensures
        forall|i: int|
            0 <= i < insert_sorted(s, e).len() ==> (#[trigger] insert_sorted(s, e)[i] == e
                || s.contains(insert_sorted(s, e)[i])),
    decreases s.len(),
{
    if s.len() == 0 {
    } else if lex_le(s.last().0, e.0) {
        assert(forall|i: int| 0 <= i < s.len() ==> s.contains(#[trigger] s[i]));
    } else {
        let dl = s.drop_last();
        lemma_insert_sorted_membership(dl, e);
        let t = insert_sorted(s, e);
        assert forall|i: int| 0 <= i < t.len() implies (#[trigger] t[i] == e || s.contains(
            t[i],
        )) by {
            if i < t.len() - 1 {
                assert(t[i] == insert_sorted(dl, e)[i]);
                if insert_sorted(dl, e)[i] != e {
                    let j = choose|j: int| 0 <= j < dl.len() && dl[j] == insert_sorted(dl, e)[i];
                    assert(s[j] == t[i]);
                }
            } else {
                assert(t[i] == s.last());
                assert(s.contains(s[s.len() - 1]));
            }
        }
    }
}

/// Inserting into a key-sorted sequence keeps it key-sorted.
pub proof fn lemma_insert_sorted_sorted(s: Seq<(Seq<char>, Seq<char>)>, e: (Seq<char>, Seq<char>))
    requires
        sorted_by_key(s),
    ensures
        sorted_by_key(insert_sorted(s, e)),
    decreases s.len(),
{
    if s.len() == 0 {
    } else if lex_le(s.last().0, e.0) {
        let t = s.push(e);
        assert forall|i: int, j: int| 0 <= i < j < t.len() implies lex_le(
            #[trigger] t[i].0,
            #[trigger] t[j].0,
        ) by {
            if j == t.len() - 1 {
                if i < s.len() - 1 {
                    lemma_lex_le_trans(s[i].0, s.last().0, e.0);
                }
            }
        }
    } else {
        let dl = s.drop_last();
        assert(forall|i: int| 0 <= i < dl.len() ==> dl[i] == s[i]);
        lemma_insert_sorted_sorted(dl, e);
        lemma_insert_sorted_membership(dl, e);
        let inner = insert_sorted(dl, e);
        let t = inner.push(s.last());
        assert forall|i: int, j: int| 0 <= i < j < t.len() implies lex_le(
            #[trigger] t[i].0,
            #[trigger] t[j].0,
        ) by {
            if j == t.len() - 1 {
                assert(t[j] == s.last());
                if inner[i] == e {
                    lemma_lex_le_total(s.last().0, e.0);
                } else {
                    let m = choose|m: int| 0 <= m < dl.len() && dl[m] == inner[i];
                    assert(lex_le(s[m].0, s.last().0));
                }
            }
        }
    }
}

/// Inserting a record with key `k` appends it to the key-`k` subsequence;
/// inserting any other record leaves that subsequence unchanged. This is
/// the stability of the collator, record by record.
pub proof fn lemma_insert_sorted_stable(
    s: Seq<(Seq<char>, Seq<char>)>,
    e: (Seq<char>, Seq<char>),
    k: Seq<char>,
)
    ensures
        insert_sorted(s, e).filter(key_is(k)) == if e.0 == k {
            s.filter(key_is(k)).push(e)
        } else {
            s.filter(key_is(k))
        },
    decreases s.len(),
{
    let pred = key_is(k);
    if s.len() == 0 {
        crate::scanner::lemma_filter_push(s, e, pred);
        assert(seq![e] =~= s.push(e));
    } else if lex_le(s.last().0, e.0) {
        crate::scanner::lemma_filter_push(s, e, pred);
    } else {
        let dl = s.drop_last();
        lemma_insert_sorted_stable(dl, e, k);
        assert(s =~= dl.push(s.last()));
        crate::scanner::lemma_filter_push(dl, s.last(), pred);
        crate::scanner::lemma_filter_push(insert_sorted(dl, e), s.last(), pred);
        if e.0 == k {
            // the record at the back has a strictly greater key, so it is
            // not a key-k record: lex_le(k, k) would otherwise hold
            lemma_lex_le_total(s.last().0, e.0);
            assert(s.last().0 != k);
        }
    }
}

/// Sorting permutes the records: the contents, as a multiset, are
/// unchanged.
pub proof fn lemma_sort_by_key_multiset(s: Seq<(Seq<char>, Seq<char>)>)
    ensures
        sort_by_key(s).to_multiset() == s.to_multiset(),
    decreases s.len(),
{
    broadcast use vstd::seq_lib::group_to_multiset_ensures;

    if s.len() > 0 {
        let dl = s.drop_last();
        lemma_sort_by_key_multiset(dl);
        lemma_insert_sorted_multiset(sort_by_key(dl), s.last());
        assert(s =~= dl.push(s.last()));
        assert(sort_by_key(s).to_multiset() =~= s.to_multiset());
    }
}

/// Sorting sorts: the keys of the result ascend under `lex_le`.
pub proof fn lemma_sort_by_key_sorted(s: Seq<(Seq<char>, Seq<char>)>)
    ensures
        sorted_by_key(sort_by_key(s)),
    decreases s.len(),
{
    if s.len() > 0 {
        lemma_sort_by_key_sorted(s.drop_last());
        lemma_insert_sorted_sorted(sort_by_key(s.drop_last()), s.last());
    }
}

/// Sorting is stable: for every key, the subsequence of records with that
/// key is the same before and after sorting, so equal keys keep their scan
/// order.
pub proof fn lemma_sort_by_key_stable(s: Seq<(Seq<char>, Seq<char>)>, k: Seq<char>)
    ensures
        sort_by_key(s).filter(key_is(k)) == s.filter(key_is(k)),
    decreases s.len(),
{
    if s.len() > 0 {
        let dl = s.drop_last();
        lemma_sort_by_key_stable(dl, k);
        lemma_insert_sorted_stable(sort_by_key(dl), s.last(), k);
        assert(s =~= dl.push(s.last()));
        crate::scanner::lemma_filter_push(dl, s.last(), key_is(k));
    }
}

/// When every record has the same key, sorting is the identity: the result
/// is the scan order itself.
pub proof fn lemma_sort_all_keys_equal(s: Seq<(Seq<char>, Seq<char>)>, k: Seq<char>)
    requires
        forall|i: int| 0 <= i < s.len() ==> (#[trigger] s[i]).0 == k,
    ensures
        sort_by_key(s) == s,
    decreases s.len(),
{
    if s.len() > 0 {
        let dl = s.drop_last();
        assert(forall|i: int| 0 <= i < dl.len() ==> (#[trigger] dl[i]).0 == k);
        lemma_sort_all_keys_equal(dl, k);
        if dl.len() == 0 {
            assert(sort_by_key(s) =~= s);
        } else {
            lemma_lex_le_total(dl.last().0, s.last().0);
            assert(lex_le(dl.last().0, s.last().0));
            assert(sort_by_key(s) =~= s);
        }
    }
}

/// An owned copy of one record.
fn clone_pair(p: &(String, String)) -> (r: (String, String))
    ensures
        r == *p,
{
    (p.0.clone(), p.1.clone())
}

/// Sort records ascending by key under ordinal comparison, keeping records
/// with equal keys in their given order.
pub fn sort_entries(v: &Vec<(String, String)>) -> (r: Vec<(String, String)>)
    ensures
        pairs_view(r@) == sort_by_key(pairs_view(v@)),
{
    let mut r: Vec<(String, String)> = Vec::new();
    let mut idx: usize = 0;
    proof {
        assert(pairs_view(v@.subrange(0, 0)) =~= Seq::<(Seq<char>, Seq<char>)>::empty());
        assert(pairs_view(r@) =~= sort_by_key(pairs_view(v@.subrange(0, 0))));
    }
    while idx < v.len()
        invariant
            0 <= idx <= v@.len(),
            pairs_view(r@) == sort_by_key(pairs_view(v@.subrange(0, idx as int))),
        decreases v@.len() - idx,
    {
        let e = clone_pair(&v[idx]);
        let ghost ev = (e.0@, e.1@);
        let ghost rview = pairs_view(r@);
        let mut j: usize = r.len();
        while j > 0 && !str_le(r[j - 1].0.as_str(), e.0.as_str())
            invariant
                0 <= j <= r@.len(),
                rview == pairs_view(r@),
                ev == (e.0@, e.1@),
                forall|k: int| j <= k < r@.len() ==> !lex_le(#[trigger] rview[k].0, ev.0),
            decreases j,
        {
            j = j - 1;
        }
        proof {
            lemma_insert_sorted_at(rview, ev, j as int);
        }
        r.insert(j, e);
        proof {
            assert(pairs_view(r@) =~= rview.insert(j as int, ev));
            let pref = pairs_view(v@.subrange(0, idx + 1 as int));
            assert(pref.drop_last() =~= pairs_view(v@.subrange(0, idx as int)));
            assert(pref.last() == ev);
            assert(pairs_view(r@) == sort_by_key(pref));
        }
        idx = idx + 1;
    }
    proof {
        assert(v@.subrange(0, v@.len() as int) =~= v@);
    }
    r
}

} // verus!
