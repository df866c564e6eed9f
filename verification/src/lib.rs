//! A dictionary lookup engine over tab-separated text.
//!
//! The engine owns the complete dictionary text as one immutable buffer.
//! Each query scans the buffer for records — a headword line (headword,
//! tab, definition) followed by its continuation lines — decides acceptance
//! with one of three matchers (exact, glob wildcard, or case- and
//! accent-insensitive glob wildcard), and returns the accepted pairs sorted
//! ascending by headword under ordinal comparison, with ties kept in scan
//! order.

pub mod collate;
pub mod laws;
pub mod matcher;
pub mod normalize;
pub mod scanner;
pub mod text;

use vstd::prelude::*;

use crate::collate::{sort_by_key, sort_entries};
use crate::matcher::Mode;
use crate::scanner::{find_items, matched, pairs_view};

verus! {

/// Every record of `content` whose headword satisfies `query` under `mode`,
/// sorted ascending by headword under ordinal comparison, records with
/// equal headwords in scan order.
pub open spec fn query_result(content: Seq<char>, query: Seq<char>, mode: Mode) -> Seq<
    (Seq<char>, Seq<char>),
> {
    sort_by_key(matched(content, query, mode))
}

/// A loaded dictionary: the complete text, held immutably for the lifetime
/// of the instance. Its view is the character sequence of that text.
pub struct TableDictionaryEngine {
    content: String,
}

impl View for TableDictionaryEngine {
    type V = Seq<char>;

    closed spec fn view(&self) -> Seq<char> {
        self.content@
    }
}

impl TableDictionaryEngine {
    /// Take ownership of the complete dictionary text.
    pub fn new(content: String) -> (engine: TableDictionaryEngine)
        ensures
            engine@ == content@,
    {
        TableDictionaryEngine { content }
    }

    /// All records whose headword equals the query under ordinal character
    /// equality, sorted ascending by headword, ties in scan order.
    pub fn collect_word(&self, search_key: &str) -> (r: Vec<(String, String)>)
        ensures
            pairs_view(r@) == query_result(self@, search_key@, Mode::Exact),
    {
        let items = find_items(self.content.as_str(), search_key, Mode::Exact);
        sort_entries(&items)
    }

    /// All records whose headword matches the query as an anchored glob
    /// pattern (`*` zero or more characters, `?` exactly one), case
    /// sensitively; sorted ascending by headword, ties in scan order.
    pub fn collect_word_for_wildcard(&self, search_key: &str) -> (r: Vec<(String, String)>)
        ensures
            pairs_view(r@) == query_result(self@, search_key@, Mode::Wildcard),
    {
        let items = find_items(self.content.as_str(), search_key, Mode::Wildcard);
        sort_entries(&items)
    }

    /// All records whose headword matches the query as an anchored glob
    /// pattern after both are normalized (case folded, accents stripped);
    /// the returned records keep the stored, non-normalized text. Sorted
    /// ascending by headword, ties in scan order.
    pub fn collect_word_from_converted_string_for_wildcard(&self, search_key: &str) -> (r: Vec<
        (String, String),
    >)
        ensures
            pairs_view(r@) == query_result(self@, search_key@, Mode::ConvertedWildcard),
    {
        let items = find_items(self.content.as_str(), search_key, Mode::ConvertedWildcard);
        sort_entries(&items)
    }
}

} // verus!
