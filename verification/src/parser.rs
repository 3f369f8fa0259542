//! The page-text parser: a leading delimited metadata block becomes a
//! metadata table, and bracketed-pair link syntax in the body becomes
//! an ordered, de-duplicated link list.

use vstd::prelude::*;
use crate::models::{Metadata, ParsedLink, contains_str};

verus! {

/// Whitespace as the parser trims it.
pub open spec fn is_space_char(c: char) -> bool {
    c == ' ' || c == '\t' || c == '\n' || c == '\r'
}

/// The sequence with leading whitespace removed.
pub open spec fn trim_start_spec(s: Seq<char>) -> Seq<char>
    decreases s.len(),
{
    if s.len() > 0 && is_space_char(s[0]) {
        trim_start_spec(s.drop_first())
    } else {
        s
    }
}

/// The sequence with trailing whitespace removed.
pub open spec fn trim_end_spec(s: Seq<char>) -> Seq<char>
    decreases s.len(),
{
    if s.len() > 0 && is_space_char(s.last()) {
        trim_end_spec(s.drop_last())
    } else {
        s
    }
}

/// The sequence with whitespace removed at both ends.
pub open spec fn trim_spec(s: Seq<char>) -> Seq<char> {
    trim_end_spec(trim_start_spec(s))
}

/// The sequence with leading newline characters removed.
pub open spec fn strip_nl_spec(s: Seq<char>) -> Seq<char>
    decreases s.len(),
{
    if s.len() > 0 && s[0] == '\n' {
        strip_nl_spec(s.drop_first())
    } else {
        s
    }
}

/// Whether `s` begins with `p`.
pub open spec fn starts_with(s: Seq<char>, p: Seq<char>) -> bool {
    p.len() <= s.len() && s.subrange(0, p.len() as int) == p
}

/// The first position at which `pat` occurs in `s`.
pub open spec fn find_first(s: Seq<char>, pat: Seq<char>) -> Option<int>
    decreases s.len(),
{
    if pat.len() == 0 {
        Some(0)
    } else if s.len() < pat.len() {
        None
    } else if s.subrange(0, pat.len() as int) == pat {
        Some(0)
    } else {
        match find_first(s.drop_first(), pat) {
            Some(i) => Some(i + 1),
            None => None,
        }
    }
}

/// Removing leading whitespace is dropping the whitespace prefix.
proof fn lemma_trim_start_skip(s: Seq<char>, i: int)
    requires
        0 <= i <= s.len(),
        forall|j: int| 0 <= j < i ==> is_space_char(#[trigger] s[j]),
        i < s.len() ==> !is_space_char(s[i]),
    ensures
        trim_start_spec(s) == s.skip(i),
    decreases i,
{
    if i == 0 {
        assert(s.skip(0) =~= s);
    } else {
        lemma_trim_start_skip(s.drop_first(), i - 1);
        assert(s.drop_first().skip(i - 1) =~= s.skip(i));
    }
}

/// Removing trailing whitespace is keeping the prefix before it.
proof fn lemma_trim_end_take(s: Seq<char>, i: int)
    requires
        0 <= i <= s.len(),
        forall|j: int| i <= j < s.len() ==> is_space_char(#[trigger] s[j]),
        i > 0 ==> !is_space_char(s[i - 1]),
    ensures
        trim_end_spec(s) == s.take(i),
    decreases s.len() - i,
{
    if i == s.len() {
        assert(s.take(i) =~= s);
    } else {
        lemma_trim_end_take(s.drop_last(), i);
        assert(s.drop_last().take(i) =~= s.take(i));
    }
}

/// Removing leading newlines is dropping the newline prefix.
proof fn lemma_strip_nl_skip(s: Seq<char>, i: int)
    requires
        0 <= i <= s.len(),
        forall|j: int| 0 <= j < i ==> #[trigger] s[j] == '\n',
        i < s.len() ==> s[i] != '\n',
    ensures
        strip_nl_spec(s) == s.skip(i),
    decreases i,
{
    if i == 0 {
        assert(s.skip(0) =~= s);
    } else {
        lemma_strip_nl_skip(s.drop_first(), i - 1);
        assert(s.drop_first().skip(i - 1) =~= s.skip(i));
    }
}

/// If the pattern misses every position before `k` and sits at `k`,
/// the first occurrence is `k`.
proof fn lemma_find_first_at(s: Seq<char>, pat: Seq<char>, k: int)
    requires
        pat.len() > 0,
        0 <= k,
        k + pat.len() <= s.len(),
        forall|j: int| 0 <= j < k ==> #[trigger] s.subrange(j, j + pat.len() as int) != pat,
        s.subrange(k, k + pat.len() as int) == pat,
    ensures
        find_first(s, pat) == Some(k),
    decreases k,
{
    if k == 0 {
        assert(s.subrange(0, pat.len() as int) == pat);
    } else {
        assert(s.subrange(0, 0 + pat.len() as int) != pat);
        assert(s.subrange(0, pat.len() as int) =~= s.subrange(0, 0 + pat.len() as int));
        let rest = s.drop_first();
        assert forall|j: int|
            0 <= j < k - 1 implies #[trigger] rest.subrange(j, j + pat.len() as int)
            != pat by {
            assert(rest.subrange(j, j + pat.len() as int) =~= s.subrange(
                j + 1,
                j + 1 + pat.len() as int,
            ));
        }
        assert(rest.subrange(k - 1, k - 1 + pat.len() as int) =~= s.subrange(
            k,
            k + pat.len() as int,
        ));
        lemma_find_first_at(rest, pat, k - 1);
    }
}

/// If the pattern misses every position, it has no first occurrence.
proof fn lemma_find_first_none(s: Seq<char>, pat: Seq<char>)
    requires
        pat.len() > 0,
        forall|j: int|
            0 <= j && j + pat.len() <= s.len() ==> #[trigger] s.subrange(
                j,
                j + pat.len() as int,
            ) != pat,
    ensures
        find_first(s, pat) is None,
    decreases s.len(),
{
    if s.len() >= pat.len() {
        assert(s.subrange(0, 0 + pat.len() as int) != pat);
        assert(s.subrange(0, pat.len() as int) =~= s.subrange(0, 0 + pat.len() as int));
        let rest = s.drop_first();
        assert forall|j: int|
            0 <= j && j + pat.len() <= rest.len() implies #[trigger] rest.subrange(
            j,
            j + pat.len() as int,
        ) != pat by {
            assert(rest.subrange(j, j + pat.len() as int) =~= s.subrange(
                j + 1,
                j + 1 + pat.len() as int,
            ));
        }
        lemma_find_first_none(rest, pat);
    }
}

/// Where the metadata block sits in the text: the index of its opening
/// delimiter (after leading whitespace) and the offset of the closing
/// delimiter within what follows.
pub open spec fn frontmatter_split(content: Seq<char>) -> Option<(int, int)> {
    let ti = content.len() - trim_start_spec(content).len();
    if !starts_with(trim_start_spec(content), "---"@) {
        None
    } else {
        match find_first(content.skip(ti + 3), "\n---"@) {
            Some(pos) => Some((ti as int, pos)),
            None => None,
        }
    }
}

/// The text of the metadata block, trimmed, when the text carries one.
pub open spec fn frontmatter_block(content: Seq<char>) -> Option<Seq<char>> {
    match frontmatter_split(content) {
        Some((ti, pos)) => Some(trim_spec(content.skip(ti + 3).take(pos))),
        None => None,
    }
}

/// The body of the text: everything past the metadata block and the
/// newlines that follow it, or the text itself when no block is
/// present.
pub open spec fn strip_frontmatter_spec(content: Seq<char>) -> Seq<char> {
    match frontmatter_split(content) {
        Some((ti, pos)) => strip_nl_spec(content.skip(ti + 3).skip(pos + 4)),
        None => content,
    }
}

#[verifier::external_type_specification]
#[verifier::external_body]
pub struct ExYamlMapping(serde_yaml::Mapping);

/// The fields a text yields when read as a YAML mapping: one entry per
/// mapping entry, in document order, or nothing when the text is not a
/// well-formed mapping.  An entry's key is its key string, or nothing
/// for a non-string key; an entry's values are its scalar texts — one
/// for a scalar value, one per scalar element for a list value, none
/// otherwise.
pub uninterp spec fn yaml_mapping_of(text: Seq<char>) -> Option<
    Seq<(Option<Seq<char>>, Seq<Seq<char>>)>,
>;

/// The fields held by a parsed YAML mapping, in document order, with
/// keys and scalar texts as in [`yaml_mapping_of`].
pub uninterp spec fn mapping_fields(m: serde_yaml::Mapping) -> Seq<
    (Option<Seq<char>>, Seq<Seq<char>>),
>;

/// Read a text as a YAML mapping.
///
/// Relies on `serde_yaml::from_str::<serde_yaml::Mapping>`: whether the
/// text parses as a mapping, and what it holds, depend on the text
/// alone; a text that is no mapping is an error, not a panic.
#[verifier::external_body]
fn yaml_parse_mapping(text: &str) -> (r: Option<serde_yaml::Mapping>)
    ensures
        r is Some <==> yaml_mapping_of(text@) is Some,
        match r {
            Some(m) => Some(mapping_fields(m)) == yaml_mapping_of(text@),
            None => true,
        },
{
    serde_yaml::from_str::<serde_yaml::Mapping>(text).ok()
}

/// Number of entries in a parsed YAML mapping.
///
/// Relies on `serde_yaml::Mapping::len`.
#[verifier::external_body]
fn mapping_len(m: &serde_yaml::Mapping) -> (r: usize)
    ensures
        r == mapping_fields(*m).len(),
{
    m.len()
}

/// The key of one entry of a parsed YAML mapping, or nothing for a
/// non-string key.
///
/// Relies on `serde_yaml::Mapping::iter`, which walks entries in
/// document order.
#[verifier::external_body]
fn mapping_key(m: &serde_yaml::Mapping, i: usize) -> (r: Option<String>)
    requires
        i < mapping_fields(*m).len(),
    ensures
        r.deep_view() == mapping_fields(*m)[i as int].0,
{
    match m.iter().nth(i).unwrap().0 {
        serde_yaml::Value::String(s) => Some(s.clone()),
        _ => None,
    }
}

/// The scalar texts of one entry of a parsed YAML mapping: a scalar
/// prints as itself, a list keeps its scalar elements, anything else
/// yields nothing.
///
/// Relies on `serde_yaml::Mapping::iter` and the scalar
/// `serde_yaml::Value` variants.
#[verifier::external_body]
fn mapping_values(m: &serde_yaml::Mapping, i: usize) -> (r: Vec<String>)
    requires
        i < mapping_fields(*m).len(),
    ensures
        r.deep_view() == mapping_fields(*m)[i as int].1,
{
    let scalar = |v: &serde_yaml::Value| match v {
        serde_yaml::Value::String(s) => Some(s.clone()),
        serde_yaml::Value::Bool(b) => Some(b.to_string()),
        serde_yaml::Value::Number(x) => Some(x.to_string()),
        _ => None,
    };
    match m.iter().nth(i).unwrap().1 {
        serde_yaml::Value::Sequence(items) => items.iter().filter_map(scalar).collect(),
        other => scalar(other).into_iter().collect(),
    }
}

/// The metadata table a field list folds into: non-string keys and
/// empty value lists are dropped; a repeated key keeps the later
/// values.
pub open spec fn meta_of_fields(fields: Seq<(Option<Seq<char>>, Seq<Seq<char>>)>) -> Seq<
    (Seq<char>, Seq<Seq<char>>),
>
    decreases fields.len(),
{
    if fields.len() == 0 {
        Seq::empty()
    } else {
        let prefix = meta_of_fields(fields.drop_last());
        match fields.last().0 {
            Some(k) => if fields.last().1.len() > 0 {
                crate::models::meta_store(prefix, k, fields.last().1)
            } else {
                prefix
            },
            None => prefix,
        }
    }
}

/// The metadata a text yields: the fields of its leading delimited
/// block read as a YAML mapping; a missing or malformed block yields
/// empty metadata, never an error.
pub open spec fn frontmatter_fields(content: Seq<char>) -> Seq<(Seq<char>, Seq<Seq<char>>)> {
    match frontmatter_block(content) {
        Some(block) => match yaml_mapping_of(block) {
            Some(fields) => meta_of_fields(fields),
            None => Seq::empty(),
        },
        None => Seq::empty(),
    }
}

/// Locate the metadata block's delimiters: the whitespace prefix
/// length and the closing delimiter's offset.
fn find_frontmatter(content: &str) -> (r: Option<(usize, usize)>)
    ensures
        match r {
            Some((ti, pos)) => frontmatter_split(content@) == Some((ti as int, pos as int)),
            None => frontmatter_split(content@) is None,
        },
{
    let len = content.unicode_len();
    let mut ti: usize = 0;
    loop
        invariant
            len == content@.len(),
            0 <= ti <= len,
            forall|j: int| 0 <= j < ti ==> is_space_char(#[trigger] content@[j]),
        ensures
            len == content@.len(),
            0 <= ti <= len,
            forall|j: int| 0 <= j < ti ==> is_space_char(#[trigger] content@[j]),
            ti < len ==> !is_space_char(content@[ti as int]),
        decreases len - ti,
    {
        if ti >= len {
            break ;
        }
        let c = content.get_char(ti);
        if !(c == ' ' || c == '\t' || c == '\n' || c == '\r') {
            break ;
        }
        ti = ti + 1;
    }
    proof {
        lemma_trim_start_skip(content@, ti as int);
        assert(trim_start_spec(content@).len() == content@.len() - ti);
        reveal_strlit("---");
    }
    if len - ti < 3 || content.get_char(ti) != '-' || content.get_char(ti + 1) != '-'
        || content.get_char(ti + 2) != '-' {
        proof {
            if starts_with(trim_start_spec(content@), "---"@) {
                assert(content@.skip(ti as int).subrange(0, 3) == "---"@);
                assert(content@.skip(ti as int).subrange(0, 3)[0] == '-');
                assert(content@.skip(ti as int).subrange(0, 3)[1] == '-');
                assert(content@.skip(ti as int).subrange(0, 3)[2] == '-');
                assert(content@.skip(ti as int)[0] == '-');
                assert(content@.skip(ti as int)[1] == '-');
                assert(content@.skip(ti as int)[2] == '-');
            }
        }
        return None;
    }
    proof {
        assert(content@.skip(ti as int).subrange(0, 3) =~= "---"@);
        assert(starts_with(trim_start_spec(content@), "---"@));
        reveal_strlit("\n---");
    }
    let after_start = ti + 3;
    let after_len = len - after_start;
    let ghost after = content@.skip(after_start as int);
    if after_len < 4 {
        proof {
            assert forall|j: int|
                0 <= j && j + "\n---"@.len() <= after.len() implies #[trigger] after.subrange(
                j,
                j + "\n---"@.len() as int,
            ) != "\n---"@ by {
                assert(after.subrange(j, j + "\n---"@.len() as int).len() == 4);
            }
            lemma_find_first_none(after, "\n---"@);
        }
        return None;
    }
    let bound = after_len - 4;
    for k in 0..bound + 1
        invariant
            len == content@.len(),
            trim_start_spec(content@) == content@.skip(ti as int),
            starts_with(trim_start_spec(content@), "---"@),
            ti + 3 <= len,
            after_start == ti + 3,
            after_start + after_len == len,
            after == content@.skip(after_start as int),
            after_len == after.len(),
            after_len >= 4,
            bound == after_len - 4,
            forall|j: int| 0 <= j < k ==> #[trigger] after.subrange(j, j + 4) != "\n---"@,
    {
        let c0 = content.get_char(after_start + k);
        let c1 = content.get_char(after_start + k + 1);
        let c2 = content.get_char(after_start + k + 2);
        let c3 = content.get_char(after_start + k + 3);
        proof {
            reveal_strlit("\n---");
            assert(after[k as int] == content@[after_start + k]);
            assert(after[k + 1] == content@[after_start + k + 1]);
            assert(after[k + 2] == content@[after_start + k + 2]);
            assert(after[k + 3] == content@[after_start + k + 3]);
        }
        if c0 == '\n' && c1 == '-' && c2 == '-' && c3 == '-' {
            proof {
                assert(after.subrange(k as int, k + 4) =~= "\n---"@);
                lemma_find_first_at(after, "\n---"@, k as int);
            }
            return Some((ti, k));
        } else {
            proof {
                if after.subrange(k as int, k + 4) == "\n---"@ {
                    assert(after.subrange(k as int, k + 4)[0] == '\n');
                    assert(after.subrange(k as int, k + 4)[1] == '-');
                    assert(after.subrange(k as int, k + 4)[2] == '-');
                    assert(after.subrange(k as int, k + 4)[3] == '-');
                }
            }
        }
    }
    proof {
        reveal_strlit("\n---");
        assert forall|j: int|
            0 <= j && j + "\n---"@.len() <= after.len() implies #[trigger] after.subrange(
            j,
            j + "\n---"@.len() as int,
        ) != "\n---"@ by {}
        lemma_find_first_none(after, "\n---"@);
    }
    None
}

/// Whitespace test matching [`is_space_char`].
fn is_space(c: char) -> (r: bool)
    ensures
        r == is_space_char(c),
{
    c == ' ' || c == '\t' || c == '\n' || c == '\r'
}

/// Parse the metadata of a text's leading delimited block.
///
/// A missing or malformed block yields empty metadata, never an
/// error.
pub fn parse_frontmatter(content: &str) -> (r: Metadata)
    ensures
        r@ == frontmatter_fields(content@),
{
    match find_frontmatter(content) {
        None => Metadata::new(),
        Some((ti, pos)) => {
            let len = content.unicode_len();
            proof {
                reveal_strlit("---");
                reveal_strlit("\n---");
                assert(starts_with(trim_start_spec(content@), "---"@));
                assert(ti as int == content@.len() - trim_start_spec(content@).len());
                assert(ti + 3 <= content@.len());
                assert(find_first(content@.skip(ti + 3), "\n---"@) == Some(pos as int));
                lemma_find_first_bounds(content@.skip(ti + 3), "\n---"@, pos as int);
                assert(ti + 3 + pos + 4 <= len);
            }
            let lo0 = ti + 3;
            let hi0 = lo0 + pos;
            let ghost region = content@.skip(ti + 3).take(pos as int);
            proof {
                assert(region.len() == pos);
                assert forall|j: int| 0 <= j < pos implies #[trigger] region[j] == content@[
                    lo0 + j
                ] by {}
            }
            let mut lo = lo0;
            while lo < hi0 && is_space(content.get_char(lo))
                invariant
                    lo0 <= lo <= hi0,
                    hi0 <= content@.len(),
                    hi0 == lo0 + pos,
                    region == content@.skip(lo0 as int).take(pos as int),
                    region.len() == pos,
                    forall|j: int| 0 <= j < pos ==> #[trigger] region[j] == content@[lo0 + j],
                    forall|j: int| lo0 <= j < lo ==> is_space_char(#[trigger] content@[j]),
                decreases hi0 - lo,
            {
                lo = lo + 1;
            }
            let mut hi = hi0;
            while hi > lo && is_space(content.get_char(hi - 1))
                invariant
                    lo0 <= lo <= hi <= hi0,
                    hi0 <= content@.len(),
                    hi0 == lo0 + pos,
                    region == content@.skip(lo0 as int).take(pos as int),
                    region.len() == pos,
                    forall|j: int| 0 <= j < pos ==> #[trigger] region[j] == content@[lo0 + j],
                    lo < hi0 ==> !is_space_char(content@[lo as int]),
                    forall|j: int| lo0 <= j < lo ==> is_space_char(#[trigger] content@[j]),
                    forall|j: int| hi <= j < hi0 ==> is_space_char(#[trigger] content@[j]),
                decreases hi - lo,
            {
                hi = hi - 1;
            }
            proof {
                lemma_trim_start_skip(region, lo - lo0 as int);
                let after_start = region.skip(lo - lo0 as int);
                assert forall|j: int|
                    hi - lo <= j < after_start.len() implies is_space_char(
                    #[trigger] after_start[j],
                ) by {
                    assert(after_start[j] == region[j + lo - lo0]);
                }
                if hi > lo {
                    assert(after_start[hi - lo - 1] == content@[hi - 1]);
                }
                lemma_trim_end_take(after_start, hi - lo as int);
                assert(trim_spec(region) =~= content@.subrange(lo as int, hi as int));
            }
            let block = content.substring_char(lo, hi);
            proof {
                assert(block@ =~= trim_spec(region));
                assert(frontmatter_block(content@) == Some(block@));
            }
            match yaml_parse_mapping(block) {
                None => {
                    let r = Metadata::new();
                    proof {
                        assert(r@ =~= frontmatter_fields(content@));
                    }
                    r
                },
                Some(m) => {
                    let mut md = Metadata::new();
                    let mlen = mapping_len(&m);
                    proof {
                        assert(mapping_fields(m).take(0) =~= Seq::<
                            (Option<Seq<char>>, Seq<Seq<char>>),
                        >::empty());
                    }
                    for i in 0..mlen
                        invariant
                            mlen == mapping_fields(m).len(),
                            Some(mapping_fields(m)) == yaml_mapping_of(block@),
                            md@ == meta_of_fields(mapping_fields(m).take(i as int)),
                    {
                        proof {
                            assert(mapping_fields(m).take(i + 1).drop_last()
                                =~= mapping_fields(m).take(i as int));
                            assert(mapping_fields(m).take(i + 1).last() == mapping_fields(
                                m,
                            )[i as int]);
                        }
                        let key = mapping_key(&m, i);
                        match key {
                            Some(k) => {
                                let vals = mapping_values(&m, i);
                                if vals.len() > 0 {
                                    md.insert(k, vals);
                                }
                            },
                            None => {},
                        }
                    }
                    proof {
                        assert(mapping_fields(m).take(mlen as int) =~= mapping_fields(m));
                    }
                    md
                },
            }
        },
    }
}

/// The first position at or after `from` holding a closing bracket
/// pair.
pub open spec fn find_close(s: Seq<char>, from: int) -> Option<int>
    decreases s.len() - from,
{
    if from < 0 || from + 1 >= s.len() {
        None
    } else if s[from] == ']' && s[from + 1] == ']' {
        Some(from)
    } else {
        find_close(s, from + 1)
    }
}

/// The first pipe at or after `from`.
pub open spec fn find_pipe(s: Seq<char>, from: int) -> Option<int>
    decreases s.len() - from,
{
    if from < 0 || from >= s.len() {
        None
    } else if s[from] == '|' {
        Some(from)
    } else {
        find_pipe(s, from + 1)
    }
}

/// The link one bracketed span yields: the target before an optional
/// pipe, the display text after it, both trimmed; an empty target is
/// no link.
pub open spec fn link_of_inner(inner: Seq<char>) -> Option<(Seq<char>, Option<Seq<char>>)> {
    match find_pipe(inner, 0) {
        Some(p) => {
            let target = trim_spec(inner.take(p));
            if target.len() == 0 {
                None
            } else {
                Some((target, Some(trim_spec(inner.skip(p + 1)))))
            }
        },
        None => {
            let target = trim_spec(inner);
            if target.len() == 0 {
                None
            } else {
                Some((target, None))
            }
        },
    }
}

/// Every link a scan from position `i` yields, in order, duplicates
/// kept: each opening bracket pair up to the next closing pair forms a
/// span, and the scan resumes past the closing pair.
pub open spec fn scan_links_from(s: Seq<char>, i: int) -> Seq<(Seq<char>, Option<Seq<char>>)>
    decreases s.len() - i,
{
    if i < 0 || i + 1 >= s.len() {
        Seq::empty()
    } else if s[i] == '[' && s[i + 1] == '[' {
        match find_close(s, i + 2) {
            Some(e) => if i + 2 <= e && e + 1 < s.len() {
                let rest = scan_links_from(s, e + 2);
                match link_of_inner(s.subrange(i + 2, e)) {
                    Some(l) => seq![l] + rest,
                    None => rest,
                }
            } else {
                Seq::empty()
            },
            None => Seq::empty(),
        }
    } else {
        scan_links_from(s, i + 1)
    }
}

/// Whether some link in the list aims at the target.
pub open spec fn links_contain_target(
    s: Seq<(Seq<char>, Option<Seq<char>>)>,
    t: Seq<char>,
) -> bool {
    exists|i: int| 0 <= i < s.len() && (#[trigger] s[i]).0 == t
}

/// Keep only the first link aimed at each target, in order.
pub open spec fn dedup_links(s: Seq<(Seq<char>, Option<Seq<char>>)>) -> Seq<
    (Seq<char>, Option<Seq<char>>),
>
    decreases s.len(),
{
    if s.len() == 0 {
        Seq::empty()
    } else {
        let rest = dedup_links(s.drop_last());
        if links_contain_target(rest, s.last().0) {
            rest
        } else {
            rest.push(s.last())
        }
    }
}

/// Dropping later duplicates keeps the set of targets unchanged.
proof fn lemma_dedup_links_contains(s: Seq<(Seq<char>, Option<Seq<char>>)>, t: Seq<char>)
    ensures
        links_contain_target(dedup_links(s), t) <==> links_contain_target(s, t),
    decreases s.len(),
{
    if s.len() > 0 {
        let rest = s.drop_last();
        lemma_dedup_links_contains(rest, t);
        if links_contain_target(rest, t) {
            let k = choose|k: int| 0 <= k < rest.len() && (#[trigger] rest[k]).0 == t;
            assert(s[k].0 == t);
        }
        if links_contain_target(s, t) && s.last().0 != t {
            let k = choose|k: int| 0 <= k < s.len() && (#[trigger] s[k]).0 == t;
            assert(rest[k].0 == t);
        }
        if links_contain_target(dedup_links(s), t) && !links_contain_target(
            dedup_links(rest),
            t,
        ) {
            assert(dedup_links(s) == dedup_links(rest).push(s.last()));
            let k = choose|k: int|
                0 <= k < dedup_links(s).len() && (#[trigger] dedup_links(s)[k]).0 == t;
            if k < dedup_links(rest).len() {
                assert(dedup_links(rest)[k].0 == t);
            }
        }
        if links_contain_target(dedup_links(rest), t) {
            let k = choose|k: int|
                0 <= k < dedup_links(rest).len() && (#[trigger] dedup_links(rest)[k]).0 == t;
            assert(dedup_links(s)[k].0 == t);
        }
        if s.last().0 == t && !links_contain_target(dedup_links(rest), t) {
            assert(dedup_links(s) == dedup_links(rest).push(s.last()));
            assert((dedup_links(s)[dedup_links(s).len() - 1]).0 == t);
        }
    }
}

/// Appending a link extends the deduplicated list exactly when its
/// target is new.
proof fn lemma_dedup_links_push(
    s: Seq<(Seq<char>, Option<Seq<char>>)>,
    x: (Seq<char>, Option<Seq<char>>),
)
    ensures
        dedup_links(s.push(x)) == (if links_contain_target(s, x.0) {
            dedup_links(s)
        } else {
            dedup_links(s).push(x)
        }),
{
    assert(s.push(x).drop_last() =~= s);
    assert(s.push(x).last() == x);
    lemma_dedup_links_contains(s, x.0);
}

/// The first closing pair before which none sits is the one found.
proof fn lemma_find_close_at(s: Seq<char>, from: int, e: int)
    requires
        0 <= from <= e,
        e + 1 < s.len(),
        forall|j: int| from <= j < e ==> !(#[trigger] s[j] == ']' && s[j + 1] == ']'),
        s[e] == ']' && s[e + 1] == ']',
    ensures
        find_close(s, from) == Some(e),
    decreases e - from,
{
    if from < e {
        lemma_find_close_at(s, from + 1, e);
    }
}

/// With no closing pair anywhere past `from`, none is found.
proof fn lemma_find_close_none(s: Seq<char>, from: int)
    requires
        0 <= from,
        forall|j: int| from <= j && j + 1 < s.len() ==> !(#[trigger] s[j] == ']' && s[j + 1]
            == ']'),
    ensures
        find_close(s, from) is None,
    decreases s.len() - from,
{
    if from + 1 < s.len() {
        lemma_find_close_none(s, from + 1);
    }
}

/// The first pipe before which none sits is the one found.
proof fn lemma_find_pipe_at(s: Seq<char>, from: int, k: int)
    requires
        0 <= from <= k < s.len(),
        forall|j: int| from <= j < k ==> #[trigger] s[j] != '|',
        s[k] == '|',
    ensures
        find_pipe(s, from) == Some(k),
    decreases k - from,
{
    if from < k {
        lemma_find_pipe_at(s, from + 1, k);
    }
}

/// With no pipe anywhere past `from`, none is found.
proof fn lemma_find_pipe_none(s: Seq<char>, from: int)
    requires
        0 <= from,
        forall|j: int| from <= j < s.len() ==> #[trigger] s[j] != '|',
    ensures
        find_pipe(s, from) is None,
    decreases s.len() - from,
{
    if from < s.len() {
        lemma_find_pipe_none(s, from + 1);
    }
}

/// Trim a span of the text and hand back the spanned slice.
fn trimmed_span<'a>(content: &'a str, lo0: usize, hi0: usize) -> (r: &'a str)
    requires
        lo0 <= hi0 <= content@.len(),
    ensures
        r@ == trim_spec(content@.subrange(lo0 as int, hi0 as int)),
{
    let ghost region = content@.subrange(lo0 as int, hi0 as int);
    let mut lo = lo0;
    while lo < hi0 && is_space(content.get_char(lo))
        invariant
            lo0 <= lo <= hi0,
            hi0 <= content@.len(),
            region == content@.subrange(lo0 as int, hi0 as int),
            forall|j: int| lo0 <= j < lo ==> is_space_char(#[trigger] content@[j]),
        decreases hi0 - lo,
    {
        lo = lo + 1;
    }
    let mut hi = hi0;
    while hi > lo && is_space(content.get_char(hi - 1))
        invariant
            lo0 <= lo <= hi <= hi0,
            hi0 <= content@.len(),
            region == content@.subrange(lo0 as int, hi0 as int),
            lo < hi0 ==> !is_space_char(content@[lo as int]),
            forall|j: int| lo0 <= j < lo ==> is_space_char(#[trigger] content@[j]),
            forall|j: int| hi <= j < hi0 ==> is_space_char(#[trigger] content@[j]),
        decreases hi - lo,
    {
        hi = hi - 1;
    }
    proof {
        assert forall|j: int| 0 <= j < region.len() implies #[trigger] region[j] == content@[
            lo0 + j
        ] by {}
        lemma_trim_start_skip(region, lo - lo0 as int);
        let after_start = region.skip(lo - lo0 as int);
        assert forall|j: int|
            hi - lo <= j < after_start.len() implies is_space_char(
            #[trigger] after_start[j],
        ) by {
            assert(after_start[j] == region[j + lo - lo0]);
        }
        if hi > lo {
            assert(after_start[hi - lo - 1] == content@[hi - 1]);
        }
        lemma_trim_end_take(after_start, hi - lo as int);
        assert(trim_spec(region) =~= content@.subrange(lo as int, hi as int));
    }
    let r = content.substring_char(lo, hi);
    proof {
        assert(r@ =~= content@.subrange(lo as int, hi as int));
    }
    r
}

/// Every link written in the text with bracketed-pair syntax, in
/// order of first appearance: the target before an optional pipe, the
/// display text after it, both trimmed; an empty target is no link,
/// and only the first link per target is kept.
pub fn extract_wiki_links(content: &str) -> (r: Vec<ParsedLink>)
    ensures
        r.deep_view() == dedup_links(scan_links_from(content@, 0)),
{
    let len = content.unicode_len();
    let mut raw: Vec<ParsedLink> = Vec::new();
    let mut i: usize = 0;
    proof {
        assert(raw.deep_view() =~= Seq::<(Seq<char>, Option<Seq<char>>)>::empty());
    }
    loop
        invariant
            len == content@.len(),
            0 <= i <= len,
            scan_links_from(content@, 0) == raw.deep_view() + scan_links_from(
                content@,
                i as int,
            ),
        ensures
            scan_links_from(content@, 0) == raw.deep_view(),
        decreases len - i,
    {
        if len - i < 2 {
            proof {
                assert(scan_links_from(content@, i as int) =~= Seq::<
                    (Seq<char>, Option<Seq<char>>),
                >::empty());
                assert(raw.deep_view() + scan_links_from(content@, i as int)
                    =~= raw.deep_view());
            }
            break ;
        }
        let c0 = content.get_char(i);
        let c1 = content.get_char(i + 1);
        if c0 == '[' && c1 == '[' {
            let mut e = i + 2;
            loop
                invariant
                    len == content@.len(),
                    i + 2 <= e <= len,
                    forall|j: int|
                        i + 2 <= j < e ==> !(#[trigger] content@[j] == ']' && content@[j + 1]
                            == ']'),
                ensures
                    i + 2 <= e,
                    forall|j: int|
                        i + 2 <= j < e ==> !(#[trigger] content@[j] == ']' && content@[j + 1]
                            == ']'),
                    e + 1 < len ==> (content@[e as int] == ']' && content@[e + 1] == ']'),
                    e + 1 >= len ==> e <= len,
                decreases len - e,
            {
                if len - e < 2 {
                    break ;
                }
                if content.get_char(e) == ']' && content.get_char(e + 1) == ']' {
                    break ;
                }
                e = e + 1;
            }
            if len - e >= 2 {
                proof {
                    lemma_find_close_at(content@, i + 2, e as int);
                }
                let ghost inner = content@.subrange(i + 2, e as int);
                proof {
                    assert forall|q: int|
                        0 <= q < inner.len() implies #[trigger] inner[q] == content@[
                        i + 2 + q
                    ] by {}
                }
                let mut p = i + 2;
                while p < e && content.get_char(p) != '|'
                    invariant
                        len == content@.len(),
                        e + 1 < len,
                        i + 2 <= p <= e,
                        forall|j: int| i + 2 <= j < p ==> #[trigger] content@[j] != '|',
                    decreases e - p,
                {
                    p = p + 1;
                }
                let ghost prevraw = raw.deep_view();
                if p < e {
                    // a pipe splits target and display text
                    proof {
                        assert(inner[p - (i + 2)] == '|');
                        assert forall|q: int|
                            0 <= q < p - (i + 2) implies #[trigger] inner[q] != '|' by {
                            assert(inner[q] == content@[i + 2 + q]);
                        }
                        lemma_find_pipe_at(inner, 0, p - (i + 2));
                        assert(inner.take(p - (i + 2)) =~= content@.subrange(
                            i + 2,
                            p as int,
                        ));
                        assert(inner.skip(p - (i + 2) + 1) =~= content@.subrange(
                            p + 1,
                            e as int,
                        ));
                    }
                    let target = trimmed_span(content, i + 2, p);
                    if !target.is_empty() {
                        let display = trimmed_span(content, p + 1, e);
                        raw.push(
                            ParsedLink::new(target.to_owned(), Some(display.to_owned())),
                        );
                        proof {
                            assert(raw.deep_view() =~= prevraw.push(
                                (target@, Some(display@)),
                            ));
                        }
                    }
                } else {
                    // no pipe: the whole span is the target
                    proof {
                        assert forall|q: int| 0 <= q < inner.len() implies #[trigger] inner[q]
                            != '|' by {
                            assert(inner[q] == content@[i + 2 + q]);
                        }
                        lemma_find_pipe_none(inner, 0);
                    }
                    let target = trimmed_span(content, i + 2, e);
                    if !target.is_empty() {
                        raw.push(ParsedLink::new(target.to_owned(), None));
                        proof {
                            assert(raw.deep_view() =~= prevraw.push((target@, None)));
                        }
                    }
                }
                proof {
                    let s = content@;
                    let rest = scan_links_from(s, e + 2);
                    assert(scan_links_from(s, i as int) == (match link_of_inner(inner) {
                        Some(l) => seq![l] + rest,
                        None => rest,
                    }));
                    assert(scan_links_from(s, 0) =~= raw.deep_view() + rest);
                }
                i = e + 2;
            } else {
                proof {
                    lemma_find_close_none(content@, i + 2);
                    assert(scan_links_from(content@, i as int) =~= Seq::<
                        (Seq<char>, Option<Seq<char>>),
                    >::empty());
                    assert(raw.deep_view() + scan_links_from(content@, i as int)
                        =~= raw.deep_view());
                }
                break ;
            }
        } else {
            proof {
                assert(scan_links_from(content@, i as int) == scan_links_from(
                    content@,
                    i + 1,
                ));
            }
            i = i + 1;
        }
    }
    let mut out: Vec<ParsedLink> = Vec::new();
    let mut seen: Vec<String> = Vec::new();
    let rn = raw.len();
    proof {
        assert(raw.deep_view().take(0) =~= Seq::<(Seq<char>, Option<Seq<char>>)>::empty());
        assert(out.deep_view() =~= dedup_links(raw.deep_view().take(0)));
    }
    for j in 0..rn
        invariant
            rn == raw@.len(),
            out.deep_view() == dedup_links(raw.deep_view().take(j as int)),
            seen@.len() == out@.len(),
            forall|k: int|
                0 <= k < out@.len() ==> (#[trigger] seen@[k])@ == out.deep_view()[k].0,
    {
        let ghost rdv = raw.deep_view();
        let ghost x = rdv[j as int];
        proof {
            assert(x == raw@[j as int]@);
            assert(rdv.take(j + 1) =~= rdv.take(j as int).push(x));
            lemma_dedup_links_push(rdv.take(j as int), x);
            lemma_dedup_links_contains(rdv.take(j as int), x.0);
        }
        let fresh = !contains_str(&seen, raw[j].target.as_str());
        proof {
            assert forall|t: Seq<char>| #[trigger]
                seen.deep_view().contains(t) <==> links_contain_target(
                out.deep_view(),
                t,
            ) by {
                if seen.deep_view().contains(t) {
                    let k = choose|k: int|
                        0 <= k < seen.deep_view().len() && #[trigger] seen.deep_view()[k] == t;
                    assert(seen@[k]@ == t);
                    assert(out.deep_view()[k].0 == t);
                }
                if links_contain_target(out.deep_view(), t) {
                    let k = choose|k: int|
                        0 <= k < out.deep_view().len() && (#[trigger] out.deep_view()[k]).0
                            == t;
                    assert(seen@[k]@ == t);
                    assert(seen.deep_view()[k] == t);
                }
            }
        }
        if fresh {
            let ghost prevout = out.deep_view();
            let display = match &raw[j].display_text {
                Some(d) => Some(d.clone()),
                None => None,
            };
            out.push(ParsedLink::new(raw[j].target.clone(), display));
            seen.push(raw[j].target.clone());
            proof {
                assert(out.deep_view() =~= prevout.push(x));
                assert(out.deep_view() =~= dedup_links(rdv.take(j + 1)));
            }
        } else {
            proof {
                assert(out.deep_view() =~= dedup_links(rdv.take(j + 1)));
            }
        }
    }
    proof {
        assert(raw.deep_view().take(rn as int) =~= raw.deep_view());
    }
    out
}

/// The body of the text, without the leading metadata block.
///
/// Returns the whole text when no complete delimited block leads it.
pub fn strip_frontmatter(content: &str) -> (r: &str)
    ensures
        r@ == strip_frontmatter_spec(content@),
{
    match find_frontmatter(content) {
        None => content,
        Some((ti, pos)) => {
            let len = content.unicode_len();
            proof {
                reveal_strlit("---");
                reveal_strlit("\n---");
                assert(starts_with(trim_start_spec(content@), "---"@));
                assert(ti as int == content@.len() - trim_start_spec(content@).len());
                assert(trim_start_spec(content@).len() >= 3);
                assert(ti + 3 <= content@.len());
                assert(content@.skip(ti + 3).len() == content@.len() - ti - 3);
                assert(find_first(content@.skip(ti + 3), "\n---"@) == Some(pos as int));
                lemma_find_first_bounds(content@.skip(ti + 3), "\n---"@, pos as int);
                assert(content@.skip(ti + 3).skip(pos + 4) =~= content@.skip(
                    ti + 3 + pos + 4,
                ));
            }
            let mut start = ti + 3 + pos + 4;
            let ghost tail_start = start;
            while start < len && content.get_char(start) == '\n'
                invariant
                    len == content@.len(),
                    tail_start <= start <= len,
                    forall|j: int| tail_start <= j < start ==> #[trigger] content@[j] == '\n',
                decreases len - start,
            {
                start = start + 1;
            }
            proof {
                let tail = content@.skip(tail_start as int);
                assert forall|j: int|
                    0 <= j < start - tail_start implies #[trigger] tail[j] == '\n' by {
                    assert(tail[j] == content@[tail_start + j]);
                }
                lemma_strip_nl_skip(tail, start - tail_start as int);
                assert(tail.skip(start - tail_start as int) =~= content@.skip(start as int));
            }
            let r = content.substring_char(start, len);
            proof {
                assert(r@ =~= content@.skip(start as int));
            }
            r
        },
    }
}

/// A found occurrence lies within the text.
proof fn lemma_find_first_bounds(s: Seq<char>, pat: Seq<char>, k: int)
    requires
        pat.len() > 0,
        find_first(s, pat) == Some(k),
    ensures
        0 <= k,
        k + pat.len() <= s.len(),
        s.subrange(k, k + pat.len() as int) == pat,
    decreases s.len(),
{
    if s.len() < pat.len() {
    } else if s.subrange(0, pat.len() as int) == pat {
    } else {
        let rest = s.drop_first();
        lemma_find_first_bounds(rest, pat, k - 1);
        assert(s.subrange(k, k + pat.len() as int) =~= rest.subrange(
            k - 1,
            k - 1 + pat.len() as int,
        ));
    }
}

/// The result of parsing one page text: metadata, links, and the body
/// without the metadata block.
#[derive(Clone, Debug)]
pub struct ParsedPage {
    /// Metadata from the leading delimited block.
    pub metadata: Metadata,

    /// Links found in the body, de-duplicated by target.
    pub links: Vec<ParsedLink>,

    /// The body without the metadata block.
    pub content: String,
}

/// Parse a complete page text: the leading delimited block becomes
/// metadata, and the body yields the link list and is kept as the
/// page content.
pub fn parse_markdown(content: &str) -> (r: ParsedPage)
    ensures
        r.metadata@ == frontmatter_fields(content@),
        r.links.deep_view() == dedup_links(
            scan_links_from(strip_frontmatter_spec(content@), 0),
        ),
        r.content@ == strip_frontmatter_spec(content@),
{
    let metadata = parse_frontmatter(content);
    let body = strip_frontmatter(content);
    let links = extract_wiki_links(body);
    ParsedPage { metadata, links, content: body.to_owned() }
}

} // verus!
