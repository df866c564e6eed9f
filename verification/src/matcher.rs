//! Glob matching for headword queries.
//!
//! A query pattern uses `*` (zero or more characters) and `?` (exactly one
//! character) as the only metacharacters; there is no escaping. Matching is
//! anchored at both ends: the whole key must match the whole pattern. The
//! executable matcher fills a dynamic-programming table over pattern and key
//! suffixes, so the cost is bounded by pattern length times key length.

use vstd::prelude::*;

use crate::normalize::normalize;

verus! {

/// The mode of one query.
#[derive(Clone, Copy)]
pub enum Mode {
    /// The key must equal the query under ordinal character equality.
    Exact,
    /// The query is a glob pattern; matching is case-sensitive.
    Wildcard,
    /// The query is a glob pattern; both the pattern and the key are
    /// normalized (case-folded, accents stripped) before matching.
    ConvertedWildcard,
}

/// Anchored glob matching: empty pattern accepts only the empty key, `*`
/// absorbs zero or more key characters, `?` exactly one, and any other
/// pattern character must equal the key character in place.
pub open spec fn glob_match(p: Seq<char>, t: Seq<char>) -> bool
    decreases p.len() + t.len(),
{
    if p.len() == 0 {
        t.len() == 0
    } else if p[0] == '*' {
        glob_match(p.subrange(1, p.len() as int), t) || (t.len() > 0 && glob_match(
            p,
            t.subrange(1, t.len() as int),
        ))
    } else {
        t.len() > 0 && (p[0] == '?' || p[0] == t[0]) && glob_match(
            p.subrange(1, p.len() as int),
            t.subrange(1, t.len() as int),
        )
    }
}

/// Whether a candidate key satisfies a query under a given mode.
pub open spec fn accepts(query: Seq<char>, key: Seq<char>, mode: Mode) -> bool {
    match mode {
        Mode::Exact => key == query,
        Mode::Wildcard => glob_match(query, key),
        Mode::ConvertedWildcard => glob_match(normalize(query), normalize(key)),
    }
}

/// Glob matching restricted to the suffixes of `p` and `t` that start at
/// `i` and `j`.
pub open spec fn glob_suffix(p: Seq<char>, t: Seq<char>, i: int, j: int) -> bool {
    glob_match(p.subrange(i, p.len() as int), t.subrange(j, t.len() as int))
}

/// One unfolding of `glob_match`, phrased over suffix start positions: this
/// is the recurrence the executable table follows.
proof fn lemma_glob_suffix_step(p: Seq<char>, t: Seq<char>, i: int, j: int)
    requires
        0 <= i <= p.len(),
        0 <= j <= t.len(),
    ensures
        glob_suffix(p, t, i, j) == if i == p.len() {
            j == t.len()
        } else if p[i] == '*' {
            glob_suffix(p, t, i + 1, j) || (j < t.len() && glob_suffix(p, t, i, j + 1))
        } else {
            j < t.len() && (p[i] == '?' || p[i] == t[j]) && glob_suffix(p, t, i + 1, j + 1)
        },
{
    let ps = p.subrange(i, p.len() as int);
    let ts = t.subrange(j, t.len() as int);
    if i == p.len() {
        assert(ps.len() == 0);
        assert(glob_suffix(p, t, i, j) == (ts.len() == 0));
    } else {
        assert(ps[0] == p[i]);
        assert(ps.subrange(1, ps.len() as int) =~= p.subrange(i + 1, p.len() as int));
        if j < t.len() {
            assert(ts[0] == t[j]);
            assert(ts.subrange(1, ts.len() as int) =~= t.subrange(j + 1, t.len() as int));
        }
    }
}

/// A pattern consisting of a single `*` accepts every key, the empty key
/// included.
pub proof fn lemma_star_matches_all(t: Seq<char>)
    ensures
        glob_match(seq!['*'], t),
    decreases t.len(),
{
    let p = seq!['*'];
    assert(p.subrange(1, 1) =~= Seq::<char>::empty());
    if t.len() == 0 {
        assert(glob_match(p.subrange(1, 1), t));
    } else {
        lemma_star_matches_all(t.subrange(1, t.len() as int));
    }
}

/// Matching is anchored: a pattern without metacharacters accepts exactly
/// the key that equals it character for character, never a proper
/// super-string.
pub proof fn lemma_literal_pattern_anchored(p: Seq<char>, t: Seq<char>)
    requires
        forall|i: int| 0 <= i < p.len() ==> p[i] != '*' && p[i] != '?',
    ensures
        glob_match(p, t) <==> p == t,
    decreases p.len(),
{
    if p.len() == 0 {
        if t.len() == 0 {
            assert(p =~= t);
        }
    } else if t.len() == 0 {
        assert(p.len() != t.len());
    } else {
        let ps = p.subrange(1, p.len() as int);
        let ts = t.subrange(1, t.len() as int);
        assert(forall|i: int| 0 <= i < ps.len() ==> ps[i] == p[i + 1]);
        assert(forall|i: int| 0 <= i < ts.len() ==> ts[i] == t[i + 1]);
        lemma_literal_pattern_anchored(ps, ts);
        if glob_match(p, t) {
            assert(p[0] == t[0]);
            assert(ps == ts);
            assert(p.len() == t.len());
            assert forall|i: int| 0 <= i < p.len() implies p[i] == t[i] by {
                if i > 0 {
                    assert(ps[i - 1] == ts[i - 1]);
                }
            }
            assert(p =~= t);
        }
        if p == t {
            assert(ps =~= ts);
        }
    }
}

/// Executable anchored glob matcher: a table of suffix results, filled from
/// the ends of the pattern and the key backwards.
pub fn glob_matches(p: &Vec<char>, t: &Vec<char>) -> (r: bool)
    requires
        t@.len() < usize::MAX,
    ensures
        r == glob_match(p@, t@),
{
    let m = p.len();
    let n = t.len();
    // row holds the results for the pattern suffix starting at i + 1;
    // cur is built for the suffix starting at i.
    let mut row: Vec<bool> = Vec::new();
    let mut j: usize = 0;
    while j <= n
        invariant
            0 <= j <= n + 1,
            n == t@.len(),
            n < usize::MAX,
            m == p@.len(),
            row@.len() == j,
            forall|k: int| 0 <= k < j ==> row@[k] == glob_suffix(p@, t@, m as int, k),
        decreases n + 1 - j,
    {
        proof {
            lemma_glob_suffix_step(p@, t@, m as int, j as int);
        }
        row.push(j == n);
        j = j + 1;
    }
    let mut i: usize = m;
    while i > 0
        invariant
            0 <= i <= m,
            n == t@.len(),
            n < usize::MAX,
            m == p@.len(),
            row@.len() == n + 1,
            forall|k: int| 0 <= k <= n ==> row@[k] == glob_suffix(p@, t@, i as int, k),
        decreases i,
    {
        let pi = p[i - 1];
        let mut cur: Vec<bool> = vec![false; n + 1];
        // fill cur right to left: the `*` case reads the cell just filled.
        let mut jj: usize = n + 1;
        while jj > 0
            invariant
                0 <= jj <= n + 1,
                n == t@.len(),
                m == p@.len(),
                0 < i <= m,
                pi == p@[i - 1],
                row@.len() == n + 1,
                cur@.len() == n + 1,
                forall|k: int| 0 <= k <= n ==> row@[k] == glob_suffix(p@, t@, i as int, k),
                forall|k: int| jj <= k <= n ==> cur@[k] == glob_suffix(p@, t@, i - 1, k),
            decreases jj,
        {
            let jc = jj - 1;
            proof {
                lemma_glob_suffix_step(p@, t@, i - 1, jc as int);
            }
            let val: bool = if pi == '*' {
                row[jc] || (jc < n && cur[jc + 1])
            } else {
                jc < n && (pi == '?' || pi == t[jc]) && row[jc + 1]
            };
            cur[jc] = val;
            jj = jj - 1;
        }
        row = cur;
        i = i - 1;
    }
    proof {
        assert(p@.subrange(0, m as int) =~= p@);
        assert(t@.subrange(0, n as int) =~= t@);
    }
    row[0]
}

} // verus!
