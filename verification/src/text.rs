//! Character-level access to string slices: extracting a span of characters
//! into a vector and comparing character vectors.

use vstd::prelude::*;

verus! {

/// The characters of `s` between the character positions `from` and `to`,
/// as an owned vector.
pub fn extract_chars(s: &str, from: usize, to: usize) -> (r: Vec<char>)
    requires
        from <= to <= s@.len(),
    ensures
        r@ == s@.subrange(from as int, to as int),
{
    let mut r: Vec<char> = Vec::new();
    let mut i: usize = from;
    while i < to
        invariant
            from <= i <= to <= s@.len(),
            r@ == s@.subrange(from as int, i as int),
        decreases to - i,
    {
        let c = s.get_char(i);
        r.push(c);
        proof {
            assert(r@ =~= s@.subrange(from as int, i + 1 as int));
        }
        i = i + 1;
    }
    r
}

/// All characters of `s` as an owned vector.
pub fn str_chars(s: &str) -> (r: Vec<char>)
    ensures
        r@ == s@,
{
    let n = s.unicode_len();
    let r = extract_chars(s, 0, n);
    proof {
        assert(s@.subrange(0, n as int) =~= s@);
    }
    r
}

/// Ordinal equality of two character vectors.
pub fn chars_equal(a: &Vec<char>, b: &Vec<char>) -> (r: bool)
    ensures
        r == (a@ == b@),
{
    if a.len() != b.len() {
        return false;
    }
    let mut i: usize = 0;
    while i < a.len()
        invariant
            0 <= i <= a@.len(),
            a@.len() == b@.len(),
            forall|k: int| 0 <= k < i ==> a@[k] == b@[k],
        decreases a@.len() - i,
    {
        if a[i] != b[i] {
            return false;
        }
        i = i + 1;
    }
    proof {
        assert(a@ =~= b@);
    }
    true
}

} // verus!
