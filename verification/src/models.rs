//! Value types for pages and links, and the metadata table attached to
//! each page.

use vstd::prelude::*;
use vstd::pervasive::VecAdditionalExecFns;

verus! {

/// Copy a vector of strings element by element.
pub fn clone_string_vec(v: &Vec<String>) -> (r: Vec<String>)
    ensures
        r@ == v@,
{
    let mut r: Vec<String> = Vec::new();
    let n = v.len();
    for i in 0..n
        invariant
            n == v.len(),
            r@ == v@.take(i as int),
    {
        r.push(v[i].clone());
        proof {
            assert(v@.take(i + 1) =~= v@.take(i as int).push(v@[i as int]));
        }
    }
    proof {
        assert(v@.take(n as int) =~= v@);
    }
    r
}

/// Whether the vector holds a string with the given characters.
pub fn contains_str(v: &Vec<String>, s: &str) -> (r: bool)
    ensures
        r == v.deep_view().contains(s@),
{
    let n = v.len();
    for i in 0..n
        invariant
            n == v.len(),
            forall|j: int| 0 <= j < i ==> (#[trigger] v@[j])@ != s@,
    {
        if str_eq(v[i].as_str(), s) {
            proof {
                assert(v.deep_view()[i as int] == s@);
            }
            return true;
        }
    }
    proof {
        if v.deep_view().contains(s@) {
            let k = choose|k: int| 0 <= k < v.deep_view().len() && v.deep_view()[k] == s@;
            assert(v@[k]@ == s@);
        }
    }
    false
}

/// Compare two string slices.
///
/// Relies on `<str as PartialEq>::eq`: two slices compare equal exactly
/// when their character sequences are equal.
#[verifier::external_body]
pub fn str_eq(a: &str, b: &str) -> (r: bool)
    ensures
        r == (a@ == b@),
{
    a == b
}

/// First value list stored under `key`, scanning entries front to back.
pub open spec fn meta_lookup(
    entries: Seq<(Seq<char>, Seq<Seq<char>>)>,
    key: Seq<char>,
) -> Option<Seq<Seq<char>>>
    decreases entries.len(),
{
    if entries.len() == 0 {
        None
    } else if entries[0].0 == key {
        Some(entries[0].1)
    } else {
        meta_lookup(entries.drop_first(), key)
    }
}

/// Entry list after storing `values` under `key`: the first entry with
/// that key is replaced, or a new entry is appended.
pub open spec fn meta_store(
    entries: Seq<(Seq<char>, Seq<Seq<char>>)>,
    key: Seq<char>,
    values: Seq<Seq<char>>,
) -> Seq<(Seq<char>, Seq<Seq<char>>)>
    decreases entries.len(),
{
    if entries.len() == 0 {
        seq![(key, values)]
    } else if entries[0].0 == key {
        seq![(key, values)] + entries.drop_first()
    } else {
        seq![entries[0]] + meta_store(entries.drop_first(), key, values)
    }
}

/// Page metadata: an ordered table from string keys to lists of string
/// values, supporting scalar fields (one value) and multi-value fields.
///
/// Lookup returns the first entry with the requested key.
#[derive(Debug)]
pub struct Metadata {
    entries: Vec<(String, Vec<String>)>,
}

impl Clone for Metadata {
    /// Copy the table entry by entry; the copy has the same view.
    fn clone(&self) -> (r: Self)
        ensures
            r@ == self@,
    {
        let mut entries: Vec<(String, Vec<String>)> = Vec::new();
        let n = self.entries.len();
        for i in 0..n
            invariant
                n == self.entries.len(),
                entries@.len() == i,
                forall|j: int|
                    0 <= j < i ==> entries@[j].0 == self.entries@[j].0 && entries@[j].1@
                        == self.entries@[j].1@,
        {
            let key = self.entries[i].0.clone();
            let values = clone_string_vec(&self.entries[i].1);
            entries.push((key, values));
        }
        let r = Self { entries };
        proof {
            assert(r@ =~= self@);
        }
        r
    }
}

impl View for Metadata {
    type V = Seq<(Seq<char>, Seq<Seq<char>>)>;

    closed spec fn view(&self) -> Seq<(Seq<char>, Seq<Seq<char>>)> {
        self.entries@.map_values(|p: (String, Vec<String>)| (p.0@, p.1.deep_view()))
    }
}

impl DeepView for Metadata {
    type V = Seq<(Seq<char>, Seq<Seq<char>>)>;

    open spec fn deep_view(&self) -> Seq<(Seq<char>, Seq<Seq<char>>)> {
        self.view()
    }
}

impl Metadata {
    /// Create an empty metadata table.
    pub fn new() -> (r: Self)
        ensures
            r@ == Seq::<(Seq<char>, Seq<Seq<char>>)>::empty(),
    {
        let r = Self { entries: Vec::new() };
        proof {
            assert(r@ =~= Seq::<(Seq<char>, Seq<Seq<char>>)>::empty());
        }
        r
    }

    /// Store `values` under `key`, replacing the first entry with that
    /// key if one exists.
    pub fn insert(&mut self, key: String, values: Vec<String>)
        ensures
            final(self)@ == meta_store(old(self)@, key@, values.deep_view()),
    {
        let n = self.entries.len();
        for i in 0..n
            invariant
                n == self.entries.len(),
                self@ == old(self)@,
                forall|j: int| 0 <= j < i ==> old(self)@[j].0 != key@,
        {
            if str_eq(self.entries[i].0.as_str(), key.as_str()) {
                let ghost orig = self@;
                self.entries.set(i, (key, values));
                proof {
                    lemma_meta_store_found(orig, key@, values.deep_view(), i as int);
                    assert(self@ =~= orig.update(i as int, (key@, values.deep_view())));
                }
                return ;
            }
        }
        self.entries.push((key, values));
        proof {
            lemma_meta_store_missing(old(self)@, key@, values.deep_view());
            assert(self@ =~= old(self)@.push((key@, values.deep_view())));
        }
    }

    /// Append an entry at the end of the table without touching
    /// earlier entries; lookup still returns the first entry with a
    /// given key.
    pub fn push_entry(&mut self, key: String, values: Vec<String>)
        ensures
            final(self)@ == old(self)@.push((key@, values.deep_view())),
    {
        self.entries.push((key, values));
        proof {
            assert(self@ =~= old(self)@.push((key@, values.deep_view())));
        }
    }

    /// Look up the first value list stored under `key`.
    pub fn get(&self, key: &str) -> (r: Option<&Vec<String>>)
        ensures
            match r {
                Some(v) => meta_lookup(self@, key@) == Some(v.deep_view()),
                None => meta_lookup(self@, key@) is None,
            },
    {
        let n = self.entries.len();
        for i in 0..n
            invariant
                n == self.entries.len(),
                forall|j: int| 0 <= j < i ==> self@[j].0 != key@,
            decreases n - i,
        {
            if str_eq(self.entries[i].0.as_str(), key) {
                proof {
                    lemma_meta_lookup_at(self@, key@, i as int);
                }
                return Some(&self.entries[i].1);
            }
        }
        proof {
            lemma_meta_lookup_none(self@, key@);
        }
        None
    }

    /// Whether any entry is stored under `key`.
    pub fn contains_key(&self, key: &str) -> (r: bool)
        ensures
            r == (meta_lookup(self@, key@) is Some),
    {
        self.get(key).is_some()
    }

    /// Whether the table has no entries.
    pub fn is_empty(&self) -> (r: bool)
        ensures
            r == (self@.len() == 0),
    {
        self.entries.is_empty()
    }

    /// Number of entries in the table.
    pub fn len(&self) -> (r: usize)
        ensures
            r == self@.len(),
    {
        self.entries.len()
    }
}

/// If the first `i` entries miss `key` and entry `i` carries it, storing
/// under `key` updates exactly entry `i`, and lookup finds entry `i`.
proof fn lemma_meta_store_found(
    entries: Seq<(Seq<char>, Seq<Seq<char>>)>,
    key: Seq<char>,
    values: Seq<Seq<char>>,
    i: int,
)
    requires
        0 <= i < entries.len(),
        forall|j: int| 0 <= j < i ==> entries[j].0 != key,
        entries[i].0 == key,
    ensures
        meta_store(entries, key, values) == entries.update(i, (key, values)),
    decreases i,
{
    if i == 0 {
        assert(meta_store(entries, key, values) =~= entries.update(0, (key, values)));
    } else {
        lemma_meta_store_found(entries.drop_first(), key, values, i - 1);
        assert(entries.drop_first().update(i - 1, (key, values)) =~= entries.update(
            i,
            (key, values),
        ).drop_first());
        assert(meta_store(entries, key, values) =~= entries.update(i, (key, values)));
    }
}

/// If no entry carries `key`, storing under `key` appends a new entry.
proof fn lemma_meta_store_missing(
    entries: Seq<(Seq<char>, Seq<Seq<char>>)>,
    key: Seq<char>,
    values: Seq<Seq<char>>,
)
    requires
        forall|j: int| 0 <= j < entries.len() ==> entries[j].0 != key,
    ensures
        meta_store(entries, key, values) == entries.push((key, values)),
    decreases entries.len(),
{
    if entries.len() == 0 {
        assert(meta_store(entries, key, values) =~= entries.push((key, values)));
    } else {
        lemma_meta_store_missing(entries.drop_first(), key, values);
        assert(entries.drop_first().push((key, values)) =~= entries.push(
            (key, values),
        ).drop_first());
        assert(meta_store(entries, key, values) =~= entries.push((key, values)));
    }
}

/// If the first `i` entries miss `key` and entry `i` carries it, lookup
/// returns entry `i`'s values.
proof fn lemma_meta_lookup_at(
    entries: Seq<(Seq<char>, Seq<Seq<char>>)>,
    key: Seq<char>,
    i: int,
)
    requires
        0 <= i < entries.len(),
        forall|j: int| 0 <= j < i ==> entries[j].0 != key,
        entries[i].0 == key,
    ensures
        meta_lookup(entries, key) == Some(entries[i].1),
    decreases i,
{
    if i > 0 {
        lemma_meta_lookup_at(entries.drop_first(), key, i - 1);
    }
}

/// If no entry carries `key`, lookup returns nothing.
proof fn lemma_meta_lookup_none(entries: Seq<(Seq<char>, Seq<Seq<char>>)>, key: Seq<char>)
    requires
        forall|j: int| 0 <= j < entries.len() ==> entries[j].0 != key,
    ensures
        meta_lookup(entries, key) is None,
    decreases entries.len(),
{
    if entries.len() > 0 {
        lemma_meta_lookup_none(entries.drop_first(), key);
    }
}

/// A page tracked by the graph: its name is its identity; the path,
/// metadata and modification stamp are attributes overwritten on
/// re-scan.
#[derive(Clone, Debug)]
pub struct PageNode {
    /// The page name, derived from the source file name without its
    /// extension.
    pub name: String,

    /// The file path relative to the watched data directory.
    pub file_path: String,

    /// Metadata parsed from the page's leading delimited block.
    pub metadata: Metadata,

    /// Last modification stamp of the source file, in milliseconds.
    pub last_modified: u64,
}

impl PageNode {
    /// Create a page with empty metadata and a zero modification stamp.
    pub fn new(name: String, file_path: String) -> (r: Self)
        ensures
            r.name == name,
            r.file_path == file_path,
            r.metadata@ == Seq::<(Seq<char>, Seq<Seq<char>>)>::empty(),
            r.last_modified == 0,
    {
        Self { name, file_path, metadata: Metadata::new(), last_modified: 0 }
    }

    /// Create a page with the given metadata and modification stamp.
    pub fn with_metadata(
        name: String,
        file_path: String,
        metadata: Metadata,
        last_modified: u64,
    ) -> (r: Self)
        ensures
            r.name == name,
            r.file_path == file_path,
            r.metadata == metadata,
            r.last_modified == last_modified,
    {
        Self { name, file_path, metadata, last_modified }
    }
}

/// Edge data for a link in the graph.
///
/// A link may carry a display text that differs from the name of the
/// page it points at; `None` means the link is shown as the target name.
#[derive(Debug)]
pub struct WikiLink {
    /// Optional display text for the link.
    pub display_text: Option<String>,
}

impl Clone for WikiLink {
    /// Copy the link; the copy equals the original.
    fn clone(&self) -> (r: Self)
        ensures
            r == *self,
    {
        match &self.display_text {
            Some(text) => Self { display_text: Some(text.clone()) },
            None => Self { display_text: None },
        }
    }
}

impl WikiLink {
    /// Create a link without display text.
    pub fn new() -> (r: Self)
        ensures
            r.display_text is None,
    {
        Self { display_text: None }
    }

    /// Create a link with the given display text.
    pub fn with_display_text(text: String) -> (r: Self)
        ensures
            r.display_text == Some(text),
    {
        Self { display_text: Some(text) }
    }
}

/// A link extracted from page text: the target page name and the
/// optional display text, before the link is added to the graph.
#[derive(Clone, Debug, PartialEq)]
pub struct ParsedLink {
    /// The target page name.
    pub target: String,

    /// Optional display text.
    pub display_text: Option<String>,
}

impl View for ParsedLink {
    type V = (Seq<char>, Option<Seq<char>>);

    open spec fn view(&self) -> (Seq<char>, Option<Seq<char>>) {
        (self.target@, self.display_text.deep_view())
    }
}

impl DeepView for ParsedLink {
    type V = (Seq<char>, Option<Seq<char>>);

    open spec fn deep_view(&self) -> (Seq<char>, Option<Seq<char>>) {
        self.view()
    }
}

impl ParsedLink {
    /// Create a parsed link.
    pub fn new(target: String, display_text: Option<String>) -> (r: Self)
        ensures
            r.target == target,
            r.display_text == display_text,
    {
        Self { target, display_text }
    }
}

/// A flattened page record handed to callers outside the store: the
/// page name, its path as a plain string, and its metadata.
#[derive(Clone, Debug)]
pub struct PageInfo {
    /// The page name.
    pub name: String,

    /// The file path relative to the watched data directory.
    pub file_path: String,

    /// Metadata parsed from the page's leading delimited block.
    pub metadata: Metadata,
}

impl PageInfo {
    /// Create a record with empty metadata.
    pub fn new(name: String, file_path: String) -> (r: Self)
        ensures
            r.name == name,
            r.file_path == file_path,
            r.metadata@ == Seq::<(Seq<char>, Seq<Seq<char>>)>::empty(),
    {
        Self { name, file_path, metadata: Metadata::new() }
    }

    /// Create a record with the given metadata.
    pub fn with_metadata(name: String, file_path: String, metadata: Metadata) -> (r: Self)
        ensures
            r.name == name,
            r.file_path == file_path,
            r.metadata == metadata,
    {
        Self { name, file_path, metadata }
    }

    /// Flatten a page node into a record, dropping the modification
    /// stamp.
    pub fn from_node(node: &PageNode) -> (r: Self)
        ensures
            r.name@ == node.name@,
            r.file_path@ == node.file_path@,
            r.metadata@ == node.metadata@,
    {
        Self {
            name: node.name.clone(),
            file_path: node.file_path.clone(),
            metadata: node.metadata.clone(),
        }
    }
}

} // verus!
