//! The entry scanner and the record model of the dictionary text.
//!
//! A record begins on a headword line: a line whose first tab comes after
//! at least one headword character. The headword is the text before that
//! tab; the definition is everything after it, extended by the following
//! continuation lines (lines that begin no new headword) up to the next
//! headword line or the end of the text, joined with the line breaks
//! between them. Lines before the first headword line have no discernible
//! key: they are skipped, never an error.

use vstd::prelude::*;

use crate::matcher::{accepts, glob_matches, Mode};
use crate::normalize::{normalize, normalize_chars};
use crate::text::{chars_equal, extract_chars, str_chars};

verus! {

/// The position of the first occurrence of `c` in `s`, or `s.len()` if `c`
/// does not occur.
pub open spec fn find_char(s: Seq<char>, c: char) -> int
    decreases s.len(),
{
    if s.len() == 0 {
        0
    } else if s[0] == c {
        0
    } else {
        1 + find_char(s.subrange(1, s.len() as int), c)
    }
}

/// `find_char` returns a position within bounds, pointing at `c` when `c`
/// occurs, with no occurrence of `c` before it.
pub proof fn lemma_find_char(s: Seq<char>, c: char)
    ensures
        0 <= find_char(s, c) <= s.len(),
        find_char(s, c) < s.len() ==> s[find_char(s, c)] == c,
        forall|i: int| 0 <= i < find_char(s, c) ==> s[i] != c,
    decreases s.len(),
{
    if s.len() == 0 {
    } else if s[0] == c {
    } else {
        let rest = s.subrange(1, s.len() as int);
        lemma_find_char(rest, c);
        assert(forall|i: int| 0 <= i < rest.len() ==> rest[i] == s[i + 1]);
        assert forall|i: int| 0 <= i < find_char(s, c) implies s[i] != c by {
            if i > 0 {
                assert(rest[i - 1] != c);
            }
        }
    }
}

/// `find_char` is determined by its characteristic properties: if nothing
/// before `k` is `c` and either `k` is the length or `s[k]` is `c`, then
/// `find_char` is exactly `k`.
pub proof fn lemma_find_char_at(s: Seq<char>, c: char, k: int)
    requires
        0 <= k <= s.len(),
        forall|i: int| 0 <= i < k ==> s[i] != c,
        k < s.len() ==> s[k] == c,
    ensures
        find_char(s, c) == k,
{
    lemma_find_char(s, c);
    let f = find_char(s, c);
    if f < k {
        assert(s[f] == c);
        assert(s[f] != c);
    }
    if k < f {
        assert(s[k] != c);
        assert(s[k] == c);
    }
}

/// The lines of the text: the maximal runs of characters between line
/// breaks. A final line break terminates the last line; it does not begin
/// an empty one.
pub open spec fn split_lines(s: Seq<char>) -> Seq<Seq<char>>
    decreases s.len(),
        via split_lines_decreases
{
    if s.len() == 0 {
        seq![]
    } else {
        let le = find_char(s, '\n');
        if le == s.len() {
            seq![s]
        } else {
            seq![s.subrange(0, le)] + split_lines(s.subrange(le + 1, s.len() as int))
        }
    }
}

#[via_fn]
proof fn split_lines_decreases(s: Seq<char>) {
    lemma_find_char(s, '\n');
}

/// A headword line: its first tab comes after at least one headword
/// character.
pub open spec fn headword_line(line: Seq<char>) -> bool {
    0 < find_char(line, '\t') < line.len()
}

/// The headword of a headword line: the text before its first tab.
pub open spec fn line_key(line: Seq<char>) -> Seq<char> {
    line.subrange(0, find_char(line, '\t'))
}

/// The definition text a headword line begins: the text after its first
/// tab.
pub open spec fn line_value(line: Seq<char>) -> Seq<char> {
    line.subrange(find_char(line, '\t') + 1, line.len() as int)
}

/// The records held by a sequence of lines. A headword line opens a new
/// record; any other line extends the value of the record before it with a
/// line break and the line's text; lines before the first record are
/// skipped.
pub open spec fn entries_of_lines(lines: Seq<Seq<char>>) -> Seq<(Seq<char>, Seq<char>)>
    decreases lines.len(),
{
    if lines.len() == 0 {
        seq![]
    } else {
        let prev = entries_of_lines(lines.drop_last());
        let line = lines.last();
        if headword_line(line) {
            prev.push((line_key(line), line_value(line)))
        } else if prev.len() > 0 {
            prev.update(prev.len() - 1, (prev.last().0, prev.last().1 + seq!['\n'] + line))
        } else {
            seq![]
        }
    }
}

/// All records of the dictionary text, in scan order.
pub open spec fn entries(s: Seq<char>) -> Seq<(Seq<char>, Seq<char>)> {
    entries_of_lines(split_lines(s))
}

/// The records of `content` whose headword satisfies `query` under `mode`,
/// in scan order.
pub open spec fn matched(content: Seq<char>, query: Seq<char>, mode: Mode) -> Seq<
    (Seq<char>, Seq<char>),
> {
    entries(content).filter(|e: (Seq<char>, Seq<char>)| accepts(query, e.0, mode))
}

/// The character-sequence view of a vector of owned (headword, definition)
/// pairs.
pub open spec fn pairs_view(s: Seq<(String, String)>) -> Seq<(Seq<char>, Seq<char>)> {
    s.map_values(|p: (String, String)| (p.0@, p.1@))
}

/// One step of `Seq::filter`, at the back of the sequence.
pub proof fn lemma_filter_push<A>(s: Seq<A>, e: A, pred: spec_fn(A) -> bool)
    ensures
        (s.push(e)).filter(pred) == if pred(e) {
            s.filter(pred).push(e)
        } else {
            s.filter(pred)
        },
{
    reveal(Seq::filter);
    assert(s.push(e).drop_last() =~= s);
    assert(s.push(e).last() == e);
}

/// Scan the dictionary text and return every record whose headword
/// satisfies the query under the given mode, in scan order, as owned pairs
/// of the stored (never normalized) text.
pub fn find_items(content: &str, search_key: &str, mode: Mode) -> (r: Vec<(String, String)>)
    ensures
        pairs_view(r@) == matched(content@, search_key@, mode),
{
    let ghost pred = |e: (Seq<char>, Seq<char>)| accepts(search_key@, e.0, mode);
    let n = content.unicode_len();
    let qc = str_chars(search_key);
    let qn = normalize_chars(&qc);
    let mut r: Vec<(String, String)> = Vec::new();
    let ghost mut lines_seen: Seq<Seq<char>> = seq![];
    // the open record, when there is one: key span [ks, ke), value span
    // [vs, ve), and whether its key was accepted
    let mut open: bool = false;
    let mut ks: usize = 0;
    let mut ke: usize = 0;
    let mut vs: usize = 0;
    let mut ve: usize = 0;
    let mut acc: bool = false;
    let mut pos: usize = 0;
    proof {
        assert(content@.subrange(0, n as int) =~= content@);
        assert(lines_seen + split_lines(content@.subrange(0, n as int)) =~= split_lines(
            content@,
        ));
        reveal(Seq::filter);
    }
    while pos < n
        invariant
            0 <= pos <= n,
            n == content@.len(),
            qc@ == search_key@,
            qn@ == normalize(search_key@),
            pred == (|e: (Seq<char>, Seq<char>)| accepts(search_key@, e.0, mode)),
            split_lines(content@) == lines_seen + split_lines(
                content@.subrange(pos as int, n as int),
            ),
            open == (entries_of_lines(lines_seen).len() > 0),
            open ==> ks <= ke <= n && vs <= ve <= n,
            open ==> entries_of_lines(lines_seen).last() == (
                content@.subrange(ks as int, ke as int),
                content@.subrange(vs as int, ve as int),
            ),
            open ==> acc == pred(entries_of_lines(lines_seen).last()),
            open ==> (ve < n ==> pos == ve + 1 && content@[ve as int] == '\n'),
            open ==> (ve == n ==> pos == n),
            pairs_view(r@) == if open {
                entries_of_lines(lines_seen).drop_last().filter(pred)
            } else {
                entries_of_lines(lines_seen).filter(pred)
            },
        decreases n - pos,
    {
        let ghost ents = entries_of_lines(lines_seen);
        // find the end of the current line
        let mut le: usize = pos;
        while le < n && content.get_char(le) != '\n'
            invariant
                pos <= le <= n,
                n == content@.len(),
                forall|k: int| pos <= k < le ==> content@[k] != '\n',
            decreases n - le,
        {
            le = le + 1;
        }
        // find the first tab of the line
        let mut tp: usize = pos;
        while tp < le && content.get_char(tp) != '\t'
            invariant
                pos <= tp <= le <= n,
                n == content@.len(),
                forall|k: int| pos <= k < le ==> content@[k] != '\n',
                le < n ==> content@[le as int] == '\n',
                forall|k: int| pos <= k < tp ==> content@[k] != '\t',
            decreases le - tp,
        {
            tp = tp + 1;
        }
        let ghost suffix = content@.subrange(pos as int, n as int);
        let ghost line = content@.subrange(pos as int, le as int);
        let ghost rest = if le == n {
            Seq::<char>::empty()
        } else {
            content@.subrange(le + 1, n as int)
        };
        proof {
            // the scanned line boundary is the spec one
            assert(forall|i: int| 0 <= i < suffix.len() ==> suffix[i] == content@[pos + i]);
            lemma_find_char_at(suffix, '\n', le - pos);
            assert(suffix.subrange(0, le - pos) =~= line);
            if le < n {
                assert(suffix.subrange(le - pos + 1, suffix.len() as int) =~= rest);
                assert(split_lines(suffix) == seq![line] + split_lines(rest));
            } else {
                assert(line =~= suffix);
                assert(split_lines(rest) =~= Seq::<Seq<char>>::empty());
                assert(split_lines(suffix) =~= seq![line] + split_lines(rest));
            }
            assert(lines_seen + split_lines(suffix) =~= lines_seen.push(line) + split_lines(rest));
            assert(lines_seen.push(line).drop_last() =~= lines_seen);
            // the scanned tab position is the spec one
            assert(forall|i: int| 0 <= i < line.len() ==> line[i] == content@[pos + i]);
            lemma_find_char_at(line, '\t', tp - pos);
        }
        if tp < le && tp > pos {
            // a headword line: close the open record, open a new one
            proof {
                assert(headword_line(line));
            }
            if open && acc {
                let kstr = content.substring_char(ks, ke);
                let vstr = content.substring_char(vs, ve);
                let pair = (String::from_str(kstr), String::from_str(vstr));
                proof {
                    assert((pair.0@, pair.1@) == ents.last());
                }
                r.push(pair);
                proof {
                    assert(pairs_view(r@) =~= pairs_view(r@.drop_last()).push(
                        (pair.0@, pair.1@),
                    ));
                    assert(ents.drop_last().push(ents.last()) =~= ents);
                    lemma_filter_push(ents.drop_last(), ents.last(), pred);
                }
            } else if open {
                proof {
                    assert(ents.drop_last().push(ents.last()) =~= ents);
                    lemma_filter_push(ents.drop_last(), ents.last(), pred);
                }
            }
            let kc = extract_chars(content, pos, tp);
            let accepted: bool = match mode {
                Mode::Exact => chars_equal(&kc, &qc),
                Mode::Wildcard => glob_matches(&qc, &kc),
                Mode::ConvertedWildcard => {
                    let kn = normalize_chars(&kc);
                    glob_matches(&qn, &kn)
                },
            };
            open = true;
            ks = pos;
            ke = tp;
            vs = tp + 1;
            ve = le;
            acc = accepted;
            proof {
                let en = (line_key(line), line_value(line));
                assert(line_key(line) =~= content@.subrange(ks as int, ke as int));
                assert(line_value(line) =~= content@.subrange(vs as int, ve as int));
                assert(kc@ == en.0);
                assert(acc == pred(en));
                lines_seen = lines_seen.push(line);
                assert(entries_of_lines(lines_seen) == ents.push(en));
                assert(ents.push(en).drop_last() =~= ents);
            }
        } else {
            // no new headword: extend the open record's value, or skip
            proof {
                assert(!headword_line(line));
            }
            if open {
                proof {
                    let old_entry = ents.last();
                    let new_entry = (old_entry.0, old_entry.1 + seq!['\n'] + line);
                    // the extension is contiguous in the text: the old value,
                    // the line break that ended it, then this line
                    assert(ve < n);
                    assert(old_entry.1 + seq!['\n'] + line =~= content@.subrange(
                        vs as int,
                        le as int,
                    ));
                    lines_seen = lines_seen.push(line);
                    assert(entries_of_lines(lines_seen) == ents.update(
                        ents.len() - 1,
                        new_entry,
                    ));
                    assert(ents.update(ents.len() - 1, new_entry).drop_last() =~= ents.drop_last());
                    assert(ents.update(ents.len() - 1, new_entry).last() == new_entry);
                    assert(pred(new_entry) == pred(old_entry));
                }
                ve = le;
            } else {
                proof {
                    lines_seen = lines_seen.push(line);
                    assert(entries_of_lines(lines_seen) =~= ents);
                }
            }
        }
        if le < n {
            pos = le + 1;
            proof {
                assert(content@.subrange(pos as int, n as int) =~= rest);
            }
        } else {
            pos = n;
            proof {
                assert(content@.subrange(pos as int, n as int) =~= rest);
            }
        }
    }
    let ghost ents = entries_of_lines(lines_seen);
    proof {
        assert(content@.subrange(n as int, n as int) =~= Seq::<char>::empty());
        assert(split_lines(Seq::<char>::empty()) =~= Seq::<Seq<char>>::empty());
        assert(lines_seen =~= split_lines(content@));
    }
    if open && acc {
        let kstr = content.substring_char(ks, ke);
        let vstr = content.substring_char(vs, ve);
        let pair = (String::from_str(kstr), String::from_str(vstr));
        proof {
            assert((pair.0@, pair.1@) == ents.last());
        }
        r.push(pair);
        proof {
            assert(pairs_view(r@) =~= pairs_view(r@.drop_last()).push((pair.0@, pair.1@)));
            assert(ents.drop_last().push(ents.last()) =~= ents);
            lemma_filter_push(ents.drop_last(), ents.last(), pred);
        }
    } else if open {
        proof {
            assert(ents.drop_last().push(ents.last()) =~= ents);
            lemma_filter_push(ents.drop_last(), ents.last(), pred);
        }
    }
    r
}

} // verus!
