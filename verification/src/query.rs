//! The filter engine: a closed set of page predicates evaluated
//! read-only against the store, and the columnar projection of query
//! results.

use vstd::prelude::*;
use crate::graph::WikiGraph;
use crate::models::{Metadata, PageNode, clone_string_vec, contains_str, meta_lookup, str_eq};

verus! {

/// Whether the pattern is a valid regular expression.
pub uninterp spec fn pattern_ok(pattern: Seq<char>) -> bool;

/// Whether the regular expression `pattern` matches somewhere in
/// `text`.
pub uninterp spec fn pattern_matches(pattern: Seq<char>, text: Seq<char>) -> bool;

/// Probe a pattern against a text.
///
/// Relies on `regex::Regex::new` and `regex::Regex::is_match`: whether
/// the pattern compiles, and whether it matches the text, each depend
/// on the pattern and the text alone.
#[verifier::external_body]
fn regex_try_match(pattern: &str, text: &str) -> (r: Option<bool>)
    ensures
        pattern_ok(pattern@) ==> r == Some(pattern_matches(pattern@, text@)),
        !pattern_ok(pattern@) ==> r is None,
{
    match regex::Regex::new(pattern) {
        Ok(re) => Some(re.is_match(text)),
        Err(_) => None,
    }
}

/// Whether `text` matches the regular expression `pattern`; an invalid
/// pattern matches nothing, never an error.
pub fn regex_match_value(pattern: &str, text: &str) -> (r: bool)
    ensures
        r == (pattern_ok(pattern@) && pattern_matches(pattern@, text@)),
{
    match regex_try_match(pattern, text) {
        Some(b) => b,
        None => false,
    }
}

/// Whether `needle` occurs contiguously inside `hay`.
pub open spec fn is_substring(hay: Seq<char>, needle: Seq<char>) -> bool {
    exists|k: int|
        0 <= k && k + needle.len() <= hay.len() && #[trigger] hay.subrange(
            k,
            k + needle.len(),
        ) == needle
}

/// Substring search over characters.
pub fn contains_substring(hay: &str, needle: &str) -> (r: bool)
    ensures
        r == is_substring(hay@, needle@),
{
    let hay_len = hay.unicode_len();
    let needle_len = needle.unicode_len();
    if needle_len > hay_len {
        proof {
            if is_substring(hay@, needle@) {
                let k = choose|k: int|
                    0 <= k && k + needle@.len() <= hay@.len() && #[trigger] hay@.subrange(
                        k,
                        k + needle@.len(),
                    ) == needle@;
                assert(hay@.subrange(k, k + needle@.len()).len() == needle@.len());
            }
        }
        return false;
    }
    if needle_len == 0 {
        proof {
            assert(hay@.subrange(0, 0 + needle@.len() as int) =~= needle@);
            assert(is_substring(hay@, needle@));
        }
        return true;
    }
    let bound = hay_len - needle_len;
    for k in 0..bound + 1
        invariant
            hay_len == hay@.len(),
            needle_len == needle@.len(),
            needle_len <= hay_len,
            bound == hay_len - needle_len,
            forall|j: int|
                0 <= j < k ==> #[trigger] hay@.subrange(j, j + needle@.len()) != needle@,
    {
        let window = hay.substring_char(k, k + needle_len);
        if str_eq(window, needle) {
            return true;
        }
    }
    proof {
        if is_substring(hay@, needle@) {
            let j = choose|j: int|
                0 <= j && j + needle@.len() <= hay@.len() && #[trigger] hay@.subrange(
                    j,
                    j + needle@.len(),
                ) == needle@;
            assert(hay@.subrange(j, j + needle@.len()) != needle@);
        }
    }
    false
}

/// A predicate on pages, evaluated per page and AND-combined across a
/// filter list.
#[derive(Clone, Debug)]
pub enum Filter {
    /// `value` stands among the page's metadata values under `key`.
    Equals { key: String, value: String },
    /// The page's metadata holds `key`, with any value.
    HasKey { key: String },
    /// Some metadata value under `key` contains `substring`.
    Contains { key: String, substring: String },
    /// Some metadata value under `key` matches the regular expression
    /// `pattern`; an invalid pattern matches nothing, never an error.
    Matches { key: String, pattern: String },
    /// The page links to the named page.
    LinksTo { page: String },
    /// The page is linked from the named page.
    LinkedFrom { page: String },
}

/// What it means for one filter to accept a page, against a given
/// store.
pub open spec fn spec_matches(f: Filter, page: PageNode, g: WikiGraph) -> bool {
    match f {
        Filter::Equals { key, value } => match meta_lookup(page.metadata@, key@) {
            Some(vals) => vals.contains(value@),
            None => false,
        },
        Filter::HasKey { key } => meta_lookup(page.metadata@, key@) is Some,
        Filter::Contains { key, substring } => match meta_lookup(page.metadata@, key@) {
            Some(vals) => exists|i: int|
                0 <= i < vals.len() && is_substring(#[trigger] vals[i], substring@),
            None => false,
        },
        Filter::Matches { key, pattern } => pattern_ok(pattern@) && match meta_lookup(
            page.metadata@,
            key@,
        ) {
            Some(vals) => exists|i: int|
                0 <= i < vals.len() && pattern_matches(pattern@, #[trigger] vals[i]),
            None => false,
        },
        Filter::LinksTo { page: target } => g.spec_has_link(page.name@, target@),
        Filter::LinkedFrom { page: source } => g.spec_has_link(source@, page.name@),
    }
}

/// Whether every filter in the list accepts the page; an empty list
/// accepts everything.
pub open spec fn spec_matches_all(filters: Seq<Filter>, page: PageNode, g: WikiGraph) -> bool {
    forall|i: int| 0 <= i < filters.len() ==> spec_matches(#[trigger] filters[i], page, g)
}

impl Filter {
    /// Whether this filter accepts the page; link filters consult the
    /// store.
    pub fn matches_page(&self, page: &PageNode, graph: &WikiGraph) -> (r: bool)
        ensures
            r == spec_matches(*self, *page, *graph),
    {
        match self {
            Filter::Equals { key, value } => {
                match page.metadata.get(key.as_str()) {
                    Some(vals) => contains_str(vals, value.as_str()),
                    None => false,
                }
            },
            Filter::HasKey { key } => page.metadata.contains_key(key.as_str()),
            Filter::Contains { key, substring } => {
                match page.metadata.get(key.as_str()) {
                    Some(vals) => {
                        let n = vals.len();
                        let mut found = false;
                        for i in 0..n
                            invariant
                                n == vals.len(),
                                found == exists|j: int|
                                    0 <= j < i && is_substring(
                                        #[trigger] vals@[j]@,
                                        substring@,
                                    ),
                        {
                            if contains_substring(vals[i].as_str(), substring.as_str()) {
                                found = true;
                            }
                        }
                        proof {
                            let dv = vals.deep_view();
                            assert forall|j: int| 0 <= j < n implies #[trigger] dv[j]
                                == vals@[j]@ by {}
                            if found {
                                let j = choose|j: int|
                                    0 <= j < n && is_substring(#[trigger] vals@[j]@, substring@);
                                assert(is_substring(dv[j], substring@));
                            }
                            if exists|j: int|
                                0 <= j < dv.len() && is_substring(#[trigger] dv[j], substring@) {
                                let j = choose|j: int|
                                    0 <= j < dv.len() && is_substring(
                                        #[trigger] dv[j],
                                        substring@,
                                    );
                                assert(is_substring(vals@[j]@, substring@));
                            }
                        }
                        found
                    },
                    None => false,
                }
            },
            Filter::Matches { key, pattern } => {
                match page.metadata.get(key.as_str()) {
                    Some(vals) => {
                        let n = vals.len();
                        let mut found = false;
                        for i in 0..n
                            invariant
                                n == vals.len(),
                                found == (pattern_ok(pattern@) && exists|j: int|
                                    0 <= j < i && pattern_matches(
                                        pattern@,
                                        #[trigger] vals@[j]@,
                                    )),
                        {
                            if regex_match_value(pattern.as_str(), vals[i].as_str()) {
                                found = true;
                            }
                        }
                        proof {
                            let dv = vals.deep_view();
                            assert forall|j: int| 0 <= j < n implies #[trigger] dv[j]
                                == vals@[j]@ by {}
                            if found {
                                let j = choose|j: int|
                                    0 <= j < n && pattern_matches(pattern@, #[trigger] vals@[j]@);
                                assert(pattern_matches(pattern@, dv[j]));
                            }
                            if pattern_ok(pattern@) && exists|j: int|
                                0 <= j < dv.len() && pattern_matches(
                                    pattern@,
                                    #[trigger] dv[j],
                                ) {
                                let j = choose|j: int|
                                    0 <= j < dv.len() && pattern_matches(
                                        pattern@,
                                        #[trigger] dv[j],
                                    );
                                assert(pattern_matches(pattern@, vals@[j]@));
                            }
                        }
                        found
                    },
                    None => false,
                }
            },
            Filter::LinksTo { page: target } => {
                let outlinks = graph.get_outlinks(page.name.as_str());
                let r = contains_str(&outlinks, target.as_str());
                proof {
                    graph.lemma_outgoing_membership(page.name@, target@);
                }
                r
            },
            Filter::LinkedFrom { page: source } => {
                let backlinks = graph.get_backlinks(page.name.as_str());
                let r = contains_str(&backlinks, source.as_str());
                proof {
                    graph.lemma_incoming_membership(page.name@, source@);
                }
                r
            },
        }
    }
}

/// Whether every filter in the list accepts the page; an empty list
/// accepts everything.
pub fn matches_all_filters(page: &PageNode, filters: &[Filter], graph: &WikiGraph) -> (r: bool)
    ensures
        r == spec_matches_all(filters@, *page, *graph),
{
    let n = filters.len();
    for i in 0..n
        invariant
            n == filters@.len(),
            forall|j: int| 0 <= j < i ==> spec_matches(#[trigger] filters@[j], *page, *graph),
    {
        if !filters[i].matches_page(page, graph) {
            return false;
        }
    }
    true
}

/// The predicate a filter list induces on pages, against a given
/// store.
pub open spec fn matches_pred(filters: Seq<Filter>, g: WikiGraph) -> spec_fn(PageNode) -> bool {
    |p: PageNode| spec_matches_all(filters, p, g)
}

/// The entries one page contributes to a row for one requested column:
/// the reserved `name` and `file_path` columns always resolve; any
/// other column resolves to the page's metadata when present, else
/// contributes nothing.
pub open spec fn col_entry(col: String, page: PageNode) -> Seq<(Seq<char>, Seq<Seq<char>>)> {
    if col@ == "name"@ {
        seq![(col@, seq![page.name@])]
    } else if col@ == "file_path"@ {
        seq![(col@, seq![page.file_path@])]
    } else {
        match meta_lookup(page.metadata@, col@) {
            Some(v) => seq![(col@, v)],
            None => Seq::empty(),
        }
    }
}

/// The row a page yields across the requested columns, in order.
pub open spec fn row_values(columns: Seq<String>, page: PageNode) -> Seq<
    (Seq<char>, Seq<Seq<char>>),
>
    decreases columns.len(),
{
    if columns.len() == 0 {
        Seq::empty()
    } else {
        row_values(columns.drop_last(), page) + col_entry(columns.last(), page)
    }
}

/// A page passes a concatenated filter list exactly when it passes
/// both lists.
pub proof fn lemma_matches_all_split(
    fs1: Seq<Filter>,
    fs2: Seq<Filter>,
    page: PageNode,
    g: WikiGraph,
)
    ensures
        spec_matches_all(fs1 + fs2, page, g) <==> spec_matches_all(fs1, page, g)
            && spec_matches_all(fs2, page, g),
{
    if spec_matches_all(fs1 + fs2, page, g) {
        assert forall|i: int|
            0 <= i < fs1.len() implies spec_matches(#[trigger] fs1[i], page, g) by {
            assert((fs1 + fs2)[i] == fs1[i]);
        }
        assert forall|i: int|
            0 <= i < fs2.len() implies spec_matches(#[trigger] fs2[i], page, g) by {
            assert((fs1 + fs2)[fs1.len() + i] == fs2[i]);
        }
    }
    if spec_matches_all(fs1, page, g) && spec_matches_all(fs2, page, g) {
        assert forall|i: int|
            0 <= i < (fs1 + fs2).len() implies spec_matches(
            #[trigger] (fs1 + fs2)[i],
            page,
            g,
        ) by {
            if i < fs1.len() {
                assert((fs1 + fs2)[i] == fs1[i]);
            } else {
                assert((fs1 + fs2)[i] == fs2[i - fs1.len()]);
            }
        }
    }
}

/// Querying with a concatenated filter list selects exactly the
/// intersection of the two queries' results.
pub proof fn lemma_query_intersection(g: WikiGraph, fs1: Seq<Filter>, fs2: Seq<Filter>)
    ensures
        forall|p: PageNode|
            #[trigger] g.pages_view().filter(matches_pred(fs1 + fs2, g)).contains(p)
                <==> g.pages_view().filter(matches_pred(fs1, g)).contains(p)
                && g.pages_view().filter(matches_pred(fs2, g)).contains(p),
{
    assert forall|p: PageNode|
        #[trigger] g.pages_view().filter(matches_pred(fs1 + fs2, g)).contains(p)
            <==> g.pages_view().filter(matches_pred(fs1, g)).contains(p) && g.pages_view().filter(
            matches_pred(fs2, g),
        ).contains(p) by {
        crate::graph::lemma_filter_membership(g.pages_view(), matches_pred(fs1 + fs2, g), p);
        crate::graph::lemma_filter_membership(g.pages_view(), matches_pred(fs1, g), p);
        crate::graph::lemma_filter_membership(g.pages_view(), matches_pred(fs2, g), p);
        lemma_matches_all_split(fs1, fs2, p, g);
    }
}

/// An invalid pattern in a `Matches` filter accepts no page: the
/// filter yields an empty match set, never an error.
pub proof fn lemma_invalid_pattern_matches_nothing(
    key: String,
    pattern: String,
    page: PageNode,
    g: WikiGraph,
)
    requires
        !pattern_ok(pattern@),
    ensures
        !spec_matches(Filter::Matches { key, pattern }, page, g),
{
}

/// One row of a columnar query result: the page name plus the selected
/// column values.
#[derive(Clone, Debug)]
pub struct MetaTableRow {
    /// The page name, always included.
    pub page_name: String,

    /// The selected column values; a column missing from the page is
    /// simply absent.
    pub values: Metadata,
}

impl MetaTableRow {
    /// The values under a column; empty if the column is absent.
    pub fn get(&self, column: &str) -> (r: Vec<String>)
        ensures
            match meta_lookup(self.values@, column@) {
                Some(v) => r.deep_view() == v,
                None => r@.len() == 0,
            },
    {
        match self.values.get(column) {
            Some(v) => {
                let c = clone_string_vec(v);
                proof {
                    assert(c.deep_view() =~= v.deep_view());
                }
                c
            },
            None => Vec::new(),
        }
    }
}

/// The result of a columnar query: the requested columns and the
/// matching rows.
#[derive(Clone, Debug)]
pub struct MetaTableResult {
    /// The columns that were requested.
    pub columns: Vec<String>,

    /// The matching rows, one per page, in store order.
    pub rows: Vec<MetaTableRow>,
}

impl MetaTableResult {
    /// Number of rows.
    pub fn len(&self) -> (r: usize)
        ensures
            r == self.rows@.len(),
    {
        self.rows.len()
    }

    /// Whether the result has no rows.
    pub fn is_empty(&self) -> (r: bool)
        ensures
            r == (self.rows@.len() == 0),
    {
        self.rows.is_empty()
    }
}

} // verus!
