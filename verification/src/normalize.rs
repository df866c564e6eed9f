//! Key normalization: a pure, total, character-wise transform that folds
//! ASCII upper case to lower case and substitutes the base letter for
//! accented Latin letters. It is used only to decide matches in the
//! converted-wildcard mode; returned entries always keep the stored form.

use vstd::prelude::*;

verus! {

/// The canonical comparison form of one character: ASCII letters are folded
/// to lower case, accented Latin letters are replaced by their unaccented
/// lower-case base letter, and every other character maps to itself.
pub open spec fn norm_char(c: char) -> char {
    match c {
        'A' => 'a',
        'B' => 'b',
        'C' => 'c',
        'D' => 'd',
        'E' => 'e',
        'F' => 'f',
        'G' => 'g',
        'H' => 'h',
        'I' => 'i',
        'J' => 'j',
        'K' => 'k',
        'L' => 'l',
        'M' => 'm',
        'N' => 'n',
        'O' => 'o',
        'P' => 'p',
        'Q' => 'q',
        'R' => 'r',
        'S' => 's',
        'T' => 't',
        'U' => 'u',
        'V' => 'v',
        'W' => 'w',
        'X' => 'x',
        'Y' => 'y',
        'Z' => 'z',
        'à' | 'á' | 'â' | 'ã' | 'ä' | 'å' | 'À' | 'Á' | 'Â' | 'Ã' | 'Ä' | 'Å' => 'a',
        'ç' | 'Ç' => 'c',
        'è' | 'é' | 'ê' | 'ë' | 'È' | 'É' | 'Ê' | 'Ë' => 'e',
        'ì' | 'í' | 'î' | 'ï' | 'Ì' | 'Í' | 'Î' | 'Ï' => 'i',
        'ñ' | 'Ñ' => 'n',
        'ò' | 'ó' | 'ô' | 'õ' | 'ö' | 'ø' | 'Ò' | 'Ó' | 'Ô' | 'Õ' | 'Ö' | 'Ø' => 'o',
        'ù' | 'ú' | 'û' | 'ü' | 'Ù' | 'Ú' | 'Û' | 'Ü' => 'u',
        'ý' | 'ÿ' | 'Ý' => 'y',
        _ => c,
    }
}

/// The canonical comparison form of a whole key: `norm_char` applied to
/// each character in place. Total and deterministic; length is preserved.
pub open spec fn normalize(s: Seq<char>) -> Seq<char> {
    s.map_values(|c: char| norm_char(c))
}

/// Normalization is idempotent on single characters: every output of
/// `norm_char` is a fixed point.
pub proof fn lemma_norm_char_idempotent(c: char)
    ensures
        norm_char(norm_char(c)) == norm_char(c),
{
}

/// Normalization of a whole key is idempotent.
pub proof fn lemma_normalize_idempotent(s: Seq<char>)
    ensures
        normalize(normalize(s)) == normalize(s),
{
    assert forall|i: int| 0 <= i < s.len() implies norm_char(norm_char(s[i])) == norm_char(
        s[i],
    ) by {
        lemma_norm_char_idempotent(s[i]);
    }
    assert(normalize(normalize(s)) =~= normalize(s));
}

/// Executable form of `norm_char`.
pub fn norm_char_x(c: char) -> (r: char)
    ensures
        r == norm_char(c),
{
    match c {
        'A' => 'a',
        'B' => 'b',
        'C' => 'c',
        'D' => 'd',
        'E' => 'e',
        'F' => 'f',
        'G' => 'g',
        'H' => 'h',
        'I' => 'i',
        'J' => 'j',
        'K' => 'k',
        'L' => 'l',
        'M' => 'm',
        'N' => 'n',
        'O' => 'o',
        'P' => 'p',
        'Q' => 'q',
        'R' => 'r',
        'S' => 's',
        'T' => 't',
        'U' => 'u',
        'V' => 'v',
        'W' => 'w',
        'X' => 'x',
        'Y' => 'y',
        'Z' => 'z',
        'à' | 'á' | 'â' | 'ã' | 'ä' | 'å' | 'À' | 'Á' | 'Â' | 'Ã' | 'Ä' | 'Å' => 'a',
        'ç' | 'Ç' => 'c',
        'è' | 'é' | 'ê' | 'ë' | 'È' | 'É' | 'Ê' | 'Ë' => 'e',
        'ì' | 'í' | 'î' | 'ï' | 'Ì' | 'Í' | 'Î' | 'Ï' => 'i',
        'ñ' | 'Ñ' => 'n',
        'ò' | 'ó' | 'ô' | 'õ' | 'ö' | 'ø' | 'Ò' | 'Ó' | 'Ô' | 'Õ' | 'Ö' | 'Ø' => 'o',
        'ù' | 'ú' | 'û' | 'ü' | 'Ù' | 'Ú' | 'Û' | 'Ü' => 'u',
        'ý' | 'ÿ' | 'Ý' => 'y',
        _ => c,
    }
}

/// Executable normalization of a character vector.
pub fn normalize_chars(s: &Vec<char>) -> (r: Vec<char>)
    ensures
        r@ == normalize(s@),
{
    let mut r: Vec<char> = Vec::new();
    let mut i: usize = 0;
    while i < s.len()
        invariant
            0 <= i <= s.len(),
            r@ == normalize(s@.subrange(0, i as int)),
        decreases s.len() - i,
    {
        let c = norm_char_x(s[i]);
        r.push(c);
        proof {
            assert(s@.subrange(0, i + 1 as int).drop_last() =~= s@.subrange(0, i as int));
            assert(r@ =~= normalize(s@.subrange(0, i + 1 as int)));
        }
        i = i + 1;
    }
    proof {
        assert(s@.subrange(0, s@.len() as int) =~= s@);
    }
    r
}

} // verus!
