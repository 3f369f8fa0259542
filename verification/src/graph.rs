//! The graph store: owns all pages and links, keeps the name index
//! consistent under insertion and removal, and computes the link diff
//! when a page is re-scanned.

use vstd::prelude::*;
use crate::models::{Metadata, PageNode, ParsedLink, WikiLink, clone_string_vec, contains_str,
    str_eq};
use crate::events::{EventV, GraphEvent};
use crate::query::{Filter, MetaTableResult, MetaTableRow, matches_all_filters, matches_pred,
    row_values};

verus! {

broadcast use vstd::seq_lib::group_seq_properties;

/// A directed link stored in the graph: source and target page names
/// plus the link's edge data.
#[derive(Debug)]
pub struct LinkEdge {
    /// Name of the page the link leaves.
    pub from: String,

    /// Name of the page the link points at.
    pub to: String,

    /// The link's edge data.
    pub data: WikiLink,
}

impl Clone for LinkEdge {
    /// Copy the edge; the copy equals the original.
    fn clone(&self) -> (r: Self)
        ensures
            r == *self,
    {
        Self { from: self.from.clone(), to: self.to.clone(), data: self.data.clone() }
    }
}

/// Predicate holding of edges that leave the named page.
pub open spec fn edge_from_is(name: Seq<char>) -> spec_fn(LinkEdge) -> bool {
    |e: LinkEdge| e.from@ == name
}

/// Predicate holding of edges that point at the named page.
pub open spec fn edge_to_is(name: Seq<char>) -> spec_fn(LinkEdge) -> bool {
    |e: LinkEdge| e.to@ == name
}

/// Predicate holding of edges incident to the named page, in either
/// direction.
pub open spec fn edge_touches(name: Seq<char>) -> spec_fn(LinkEdge) -> bool {
    |e: LinkEdge| e.from@ == name || e.to@ == name
}

/// Predicate holding of edges not incident to the named page.
pub open spec fn edge_avoids(name: Seq<char>) -> spec_fn(LinkEdge) -> bool {
    |e: LinkEdge| e.from@ != name && e.to@ != name
}

/// Predicate holding of edges that do not leave the named page.
pub open spec fn edge_not_from(name: Seq<char>) -> spec_fn(LinkEdge) -> bool {
    |e: LinkEdge| e.from@ != name
}

/// The target name of an edge.
pub open spec fn edge_target() -> spec_fn(LinkEdge) -> Seq<char> {
    |e: LinkEdge| e.to@
}

/// The source name of an edge.
pub open spec fn edge_source() -> spec_fn(LinkEdge) -> Seq<char> {
    |e: LinkEdge| e.from@
}

/// No two edges in the sequence share the ordered (from, to) pair.
pub open spec fn edge_seq_unique(s: Seq<LinkEdge>) -> bool {
    forall|i: int, j: int|
        0 <= i < j < s.len() ==> !((#[trigger] s[i]).from@ == (#[trigger] s[j]).from@ && s[i].to@
            == s[j].to@)
}

/// A filter keeps a sequence it accepts wholly.
proof fn lemma_filter_all_true<A>(s: Seq<A>, p: spec_fn(A) -> bool)
    requires
        forall|i: int| 0 <= i < s.len() ==> p(#[trigger] s[i]),
    ensures
        s.filter(p) == s,
    decreases s.len(),
{
    reveal(Seq::filter);
    if s.len() > 0 {
        lemma_filter_all_true(s.drop_last(), p);
        assert(s.filter(p) =~= s);
    } else {
        assert(s.filter(p) =~= s);
    }
}

/// Filtering by a predicate and by its complement splits the length.
proof fn lemma_filter_complement_len<A>(s: Seq<A>, p: spec_fn(A) -> bool, q: spec_fn(A) -> bool)
    requires
        forall|x: A| #[trigger] p(x) <==> !(#[trigger] q(x)),
    ensures
        s.filter(p).len() + s.filter(q).len() == s.len(),
    decreases s.len(),
{
    reveal(Seq::filter);
    if s.len() > 0 {
        lemma_filter_complement_len(s.drop_last(), p, q);
    }
}

/// Filtering an edge sequence with pairwise-distinct (from, to) pairs
/// keeps the pairs pairwise distinct.
proof fn lemma_edge_filter_unique(s: Seq<LinkEdge>, p: spec_fn(LinkEdge) -> bool)
    requires
        edge_seq_unique(s),
    ensures
        edge_seq_unique(s.filter(p)),
    decreases s.len(),
{
    reveal(Seq::filter);
    if s.len() > 0 {
        let rest = s.drop_last();
        assert forall|i: int, j: int|
            0 <= i < j < rest.len() implies !((#[trigger] rest[i]).from@ == (
        #[trigger] rest[j]).from@ && rest[i].to@ == rest[j].to@) by {
            assert(rest[i] == s[i] && rest[j] == s[j]);
        }
        lemma_edge_filter_unique(rest, p);
        if p(s.last()) {
            assert forall|i: int|
                0 <= i < rest.filter(p).len() implies !((#[trigger] rest.filter(p)[i]).from@
                == s.last().from@ && rest.filter(p)[i].to@ == s.last().to@) by {
                let e = rest.filter(p)[i];
                assert(rest.filter(p).contains(e));
                rest.lemma_filter_contains_rev(p, e);
                let k = choose|k: int| 0 <= k < rest.len() && rest[k] == e;
                assert(s[k] == e);
                assert(!(s[k].from@ == s[s.len() - 1].from@ && s[k].to@ == s[s.len() - 1].to@));
            }
            assert(s.filter(p) == rest.filter(p).push(s.last()));
            assert forall|i: int, j: int|
                0 <= i < j < s.filter(p).len() implies !((#[trigger] s.filter(p)[i]).from@ == (
            #[trigger] s.filter(p)[j]).from@ && s.filter(p)[i].to@ == s.filter(p)[j].to@) by {
                if j < s.filter(p).len() - 1 {
                    assert(s.filter(p)[i] == rest.filter(p)[i]);
                    assert(s.filter(p)[j] == rest.filter(p)[j]);
                } else {
                    assert(s.filter(p)[i] == rest.filter(p)[i]);
                    assert(s.filter(p)[j] == s.last());
                }
            }
        }
    }
}

/// A filter drops a sequence it rejects wholly.
proof fn lemma_filter_all_false<A>(s: Seq<A>, p: spec_fn(A) -> bool)
    requires
        forall|i: int| 0 <= i < s.len() ==> !p(#[trigger] s[i]),
    ensures
        s.filter(p) == Seq::<A>::empty(),
    decreases s.len(),
{
    reveal(Seq::filter);
    if s.len() > 0 {
        lemma_filter_all_false(s.drop_last(), p);
    }
    assert(s.filter(p) =~= Seq::<A>::empty());
}

/// Every element of a filtered sequence sits somewhere in the original.
proof fn lemma_filter_element_index<A>(s: Seq<A>, p: spec_fn(A) -> bool, i: int) -> (k: int)
    requires
        0 <= i < s.filter(p).len(),
    ensures
        0 <= k < s.len(),
        s[k] == s.filter(p)[i],
{
    let e = s.filter(p)[i];
    assert(s.filter(p).contains(e));
    s.lemma_filter_contains_rev(p, e);
    choose|k: int| 0 <= k < s.len() && s[k] == e
}

/// Target names of parsed links, in order.
pub open spec fn target_seq(links: Seq<ParsedLink>) -> Seq<Seq<char>> {
    links.map_values(|l: ParsedLink| l.target@)
}

/// Keep only the first occurrence of each element, in order.
pub open spec fn dedup_first(s: Seq<Seq<char>>) -> Seq<Seq<char>>
    decreases s.len(),
{
    if s.len() == 0 {
        Seq::empty()
    } else {
        let rest = dedup_first(s.drop_last());
        if rest.contains(s.last()) {
            rest
        } else {
            rest.push(s.last())
        }
    }
}

/// The display text of the first parsed link aimed at `t`.
pub open spec fn first_display(links: Seq<ParsedLink>, t: Seq<char>) -> Option<String>
    decreases links.len(),
{
    if links.len() == 0 {
        None
    } else if links[0].target@ == t {
        links[0].display_text
    } else {
        first_display(links.drop_first(), t)
    }
}

/// Predicate holding of names absent from `s`.
pub open spec fn not_in(s: Seq<Seq<char>>) -> spec_fn(Seq<char>) -> bool {
    |t: Seq<char>| !s.contains(t)
}

/// A `LinkRemoved` event aimed at each name, from the named page.
pub open spec fn removed_event_of(name: Seq<char>) -> spec_fn(Seq<char>) -> EventV {
    |t: Seq<char>| EventV::LinkRemoved { from: name, to: t }
}

/// A `LinkCreated` event aimed at each name, from the named page.
pub open spec fn created_event_of(name: Seq<char>) -> spec_fn(Seq<char>) -> EventV {
    |t: Seq<char>| EventV::LinkCreated { from: name, to: t }
}

/// One `LinkRemoved` per old target that is no longer linked, in old
/// link order.
pub open spec fn removed_events(
    name: Seq<char>,
    old_out: Seq<Seq<char>>,
    new_out: Seq<Seq<char>>,
) -> Seq<EventV> {
    old_out.filter(not_in(new_out)).map_values(removed_event_of(name))
}

/// One `LinkCreated` per new target that was not linked before, in new
/// link order.
pub open spec fn created_events(
    name: Seq<char>,
    old_out: Seq<Seq<char>>,
    new_out: Seq<Seq<char>>,
) -> Seq<EventV> {
    new_out.filter(not_in(old_out)).map_values(created_event_of(name))
}

/// The full link diff for one page update: removals, then creations.
/// Nothing is emitted for targets linked both before and after.
pub open spec fn link_diff_events(
    name: Seq<char>,
    old_out: Seq<Seq<char>>,
    new_out: Seq<Seq<char>>,
) -> Seq<EventV> {
    removed_events(name, old_out, new_out) + created_events(name, old_out, new_out)
}

/// Dropping later duplicates keeps membership unchanged.
pub proof fn lemma_dedup_contains(s: Seq<Seq<char>>, t: Seq<char>)
    ensures
        dedup_first(s).contains(t) <==> s.contains(t),
    decreases s.len(),
{
    if s.len() > 0 {
        let rest = s.drop_last();
        lemma_dedup_contains(rest, t);
        if rest.contains(t) {
            let k = choose|k: int| 0 <= k < rest.len() && rest[k] == t;
            assert(s[k] == t);
        }
        if s.contains(t) && s.last() != t {
            let k = choose|k: int| 0 <= k < s.len() && s[k] == t;
            assert(rest[k] == t);
        }
        if dedup_first(s).contains(t) && !dedup_first(rest).contains(t) {
            assert(dedup_first(s) == dedup_first(rest).push(s.last()));
            let k = choose|k: int|
                0 <= k < dedup_first(s).len() && dedup_first(s)[k] == t;
            if k < dedup_first(rest).len() {
                assert(dedup_first(rest)[k] == t);
            }
        }
        if dedup_first(rest).contains(t) {
            let k = choose|k: int|
                0 <= k < dedup_first(rest).len() && dedup_first(rest)[k] == t;
            assert(dedup_first(s)[k] == t);
        }
    }
}

/// Appending an element extends the deduplicated sequence exactly when
/// the element is new.
pub proof fn lemma_dedup_push(s: Seq<Seq<char>>, x: Seq<char>)
    ensures
        dedup_first(s.push(x)) == (if s.contains(x) {
            dedup_first(s)
        } else {
            dedup_first(s).push(x)
        }),
{
    assert(s.push(x).drop_last() =~= s);
    assert(s.push(x).last() == x);
    lemma_dedup_contains(s, x);
}

/// The sequence with later duplicates dropped has no duplicates.
pub proof fn lemma_dedup_no_duplicates(s: Seq<Seq<char>>)
    ensures
        dedup_first(s).no_duplicates(),
    decreases s.len(),
{
    if s.len() > 0 {
        let rest = s.drop_last();
        lemma_dedup_no_duplicates(rest);
        if !dedup_first(rest).contains(s.last()) {
            assert(dedup_first(s) == dedup_first(rest).push(s.last()));
            assert forall|i: int, j: int|
                0 <= i < j < dedup_first(s).len() implies dedup_first(s)[i] != dedup_first(
                s,
            )[j] by {
                if j < dedup_first(s).len() - 1 {
                    assert(dedup_first(s)[i] == dedup_first(rest)[i]);
                    assert(dedup_first(s)[j] == dedup_first(rest)[j]);
                } else {
                    assert(dedup_first(s)[i] == dedup_first(rest)[i]);
                    assert(dedup_first(rest).contains(dedup_first(rest)[i]));
                }
            }
        }
    }
}

/// At a target's first occurrence, the recorded display text is that
/// occurrence's.
proof fn lemma_first_display_at(links: Seq<ParsedLink>, i: int)
    requires
        0 <= i < links.len(),
        forall|k: int| 0 <= k < i ==> (#[trigger] links[k]).target@ != links[i].target@,
    ensures
        first_display(links, links[i].target@) == links[i].display_text,
    decreases i,
{
    if i > 0 {
        let rest = links.drop_first();
        assert forall|k: int|
            0 <= k < i - 1 implies (#[trigger] rest[k]).target@ != rest[i - 1].target@ by {
            assert(rest[k] == links[k + 1]);
        }
        lemma_first_display_at(rest, i - 1);
    }
}

/// Build one half of the link diff: an event per name in `source` that
/// is missing from `exclude`, in `source` order.
fn half_diff_events(
    name: &str,
    source: &Vec<String>,
    exclude: &Vec<String>,
    removal: bool,
) -> (r: Vec<GraphEvent>)
    ensures
        removal ==> r.deep_view() == removed_events(name@, source.deep_view(), exclude.deep_view()),
        !removal ==> r.deep_view() == created_events(
            name@,
            exclude.deep_view(),
            source.deep_view(),
        ),
{
    let ghost pred = not_in(exclude.deep_view());
    let ghost mk = if removal {
        removed_event_of(name@)
    } else {
        created_event_of(name@)
    };
    let mut r: Vec<GraphEvent> = Vec::new();
    let n = source.len();
    proof {
        assert(source.deep_view().take(0).filter(pred) =~= Seq::<Seq<char>>::empty());
        assert(r.deep_view() =~= source.deep_view().take(0).filter(pred).map_values(mk));
    }
    for i in 0..n
        invariant
            n == source.len(),
            pred == not_in(exclude.deep_view()),
            mk == (if removal {
                removed_event_of(name@)
            } else {
                created_event_of(name@)
            }),
            r.deep_view() == source.deep_view().take(i as int).filter(pred).map_values(mk),
    {
        let ghost t = source.deep_view()[i as int];
        proof {
            assert(t == source@[i as int]@);
            assert(source.deep_view().take(i + 1) =~= source.deep_view().take(i as int).push(t));
            source.deep_view().take(i as int).lemma_filter_push(t, pred);
        }
        if !contains_str(exclude, source[i].as_str()) {
            let ghost prevr = r@;
            let ghost prevd = r.deep_view();
            let event = if removal {
                GraphEvent::LinkRemoved { from: name.to_owned(), to: source[i].clone() }
            } else {
                GraphEvent::LinkCreated { from: name.to_owned(), to: source[i].clone() }
            };
            proof {
                assert(event@ == mk(t));
            }
            r.push(event);
            proof {
                assert(pred(t));
                assert(source.deep_view().take(i + 1).filter(pred) == source.deep_view().take(
                    i as int,
                ).filter(pred).push(t));
                assert(prevd == source.deep_view().take(i as int).filter(pred).map_values(mk));
                assert(prevd.len() == prevr.len());
                assert(r@ == prevr.push(event));
                let ghost target = source.deep_view().take(i + 1).filter(pred).map_values(mk);
                assert(r.deep_view().len() == target.len());
                assert forall|k: int|
                    0 <= k < r.deep_view().len() implies #[trigger] r.deep_view()[k]
                    == target[k] by {
                    assert(r.deep_view()[k] == r@[k]@);
                    assert(target[k] == mk(
                        source.deep_view().take(i + 1).filter(pred)[k],
                    ));
                    if k < prevr.len() {
                        assert(r@[k] == prevr[k]);
                        assert(prevd[k] == prevr[k]@);
                        assert(prevd[k] == source.deep_view().take(i as int).filter(
                            pred,
                        ).map_values(mk)[k]);
                        assert(source.deep_view().take(i + 1).filter(pred)[k]
                            == source.deep_view().take(i as int).filter(pred)[k]);
                    } else {
                        assert(r@[k] == r@.last());
                        assert(source.deep_view().take(i + 1).filter(pred)[k] == t);
                    }
                }
                assert(r.deep_view() =~= target);
            }
        } else {
            proof {
                assert(!pred(t));
                assert(r.deep_view() =~= source.deep_view().take(i + 1).filter(
                    pred,
                ).map_values(mk));
            }
        }
    }
    proof {
        assert(source.deep_view().take(n as int) =~= source.deep_view());
    }
    r
}

/// Build the link-diff events for one page update: one `LinkRemoved`
/// per name in `old_out` missing from `new_out`, in `old_out` order,
/// then one `LinkCreated` per name in `new_out` missing from
/// `old_out`, in `new_out` order; nothing for names in both.
fn diff_events(name: &str, old_out: &Vec<String>, new_out: &Vec<String>) -> (r: Vec<GraphEvent>)
    ensures
        r.deep_view() == link_diff_events(name@, old_out.deep_view(), new_out.deep_view()),
{
    let mut r = half_diff_events(name, old_out, new_out, true);
    let ghost removed_part = r.deep_view();
    let mut created = half_diff_events(name, new_out, old_out, false);
    let ghost created_part = created.deep_view();
    let ghost rv = r@;
    let ghost cv = created@;
    r.append(&mut created);
    proof {
        let ghost target = link_diff_events(name@, old_out.deep_view(), new_out.deep_view());
        assert(r@ == rv + cv);
        assert(r.deep_view().len() == target.len());
        assert forall|k: int|
            0 <= k < r.deep_view().len() implies #[trigger] r.deep_view()[k] == target[k] by {
            assert(r.deep_view()[k] == r@[k]@);
            if k < rv.len() {
                assert(r@[k] == rv[k]);
                assert(removed_part[k] == rv[k]@);
            } else {
                assert(r@[k] == cv[k - rv.len()]);
                assert(created_part[k - rv.len()] == cv[k - rv.len()]@);
            }
        }
        assert(r.deep_view() =~= target);
    }
    r
}

/// Membership in a filtered sequence is membership plus the
/// predicate.
pub proof fn lemma_filter_membership<A>(s: Seq<A>, p: spec_fn(A) -> bool, x: A)
    ensures
        s.filter(p).contains(x) <==> s.contains(x) && p(x),
{
    if s.filter(p).contains(x) {
        s.lemma_filter_contains_rev(p, x);
        let k = choose|k: int| 0 <= k < s.filter(p).len() && s.filter(p)[k] == x;
        s.lemma_filter_pred(p, k);
    }
    if s.contains(x) && p(x) {
        let k = choose|k: int| 0 <= k < s.len() && s[k] == x;
        s.lemma_filter_contains(p, k);
    }
}

/// A filter keeps a duplicate-free sequence duplicate-free.
proof fn lemma_filter_no_duplicates<A>(s: Seq<A>, p: spec_fn(A) -> bool)
    requires
        s.no_duplicates(),
    ensures
        s.filter(p).no_duplicates(),
    decreases s.len(),
{
    reveal(Seq::filter);
    if s.len() > 0 {
        let rest = s.drop_last();
        assert forall|i: int, j: int|
            0 <= i < j < rest.len() implies rest[i] != rest[j] by {
            assert(rest[i] == s[i] && rest[j] == s[j]);
        }
        lemma_filter_no_duplicates(rest, p);
        if p(s.last()) {
            assert forall|i: int|
                0 <= i < rest.filter(p).len() implies rest.filter(p)[i] != s.last() by {
                let e = rest.filter(p)[i];
                assert(rest.filter(p).contains(e));
                rest.lemma_filter_contains_rev(p, e);
                let k = choose|k: int| 0 <= k < rest.len() && rest[k] == e;
                assert(s[k] == e);
                assert(s[k] != s[s.len() - 1]);
            }
            assert(s.filter(p) == rest.filter(p).push(s.last()));
            assert forall|i: int, j: int|
                0 <= i < j < s.filter(p).len() implies s.filter(p)[i] != s.filter(p)[j] by {
                if j < s.filter(p).len() - 1 {
                    assert(s.filter(p)[i] == rest.filter(p)[i]);
                    assert(s.filter(p)[j] == rest.filter(p)[j]);
                } else {
                    assert(s.filter(p)[i] == rest.filter(p)[i]);
                }
            }
        }
    }
}

/// A page update whose new target list equals the old one emits no
/// events: the link diff of a list against itself is empty.  In
/// particular, a second identical update emits nothing.
pub proof fn lemma_unchanged_links_no_events(name: Seq<char>, out: Seq<Seq<char>>)
    ensures
        link_diff_events(name, out, out) == Seq::<EventV>::empty(),
{
    assert forall|i: int| 0 <= i < out.len() implies !(not_in(out)(#[trigger] out[i])) by {
        assert(out.contains(out[i]));
    }
    lemma_filter_all_false(out, not_in(out));
    assert(removed_events(name, out, out) =~= Seq::<EventV>::empty());
    assert(created_events(name, out, out) =~= Seq::<EventV>::empty());
    assert(link_diff_events(name, out, out) =~= Seq::<EventV>::empty());
}

/// Link diffing is exact set symmetric difference: for old target set
/// O and new target set N, an update emits exactly one `LinkRemoved`
/// per name in O minus N and one `LinkCreated` per name in N minus O,
/// and nothing for the intersection.
pub proof fn lemma_diff_events_exact(
    name: Seq<char>,
    old_out: Seq<Seq<char>>,
    new_out: Seq<Seq<char>>,
)
    requires
        old_out.no_duplicates(),
        new_out.no_duplicates(),
    ensures
        removed_events(name, old_out, new_out).len() == old_out.to_set().difference(
            new_out.to_set(),
        ).len(),
        created_events(name, old_out, new_out).len() == new_out.to_set().difference(
            old_out.to_set(),
        ).len(),
        link_diff_events(name, old_out, new_out).len() == old_out.to_set().difference(
            new_out.to_set(),
        ).len() + new_out.to_set().difference(old_out.to_set()).len(),
{
    let rem = old_out.filter(not_in(new_out));
    let crt = new_out.filter(not_in(old_out));
    lemma_filter_no_duplicates(old_out, not_in(new_out));
    lemma_filter_no_duplicates(new_out, not_in(old_out));
    assert forall|t: Seq<char>| #[trigger]
        rem.contains(t) <==> old_out.contains(t) && !new_out.contains(t) by {
        lemma_filter_membership(old_out, not_in(new_out), t);
    }
    assert(rem.to_set() =~= old_out.to_set().difference(new_out.to_set()));
    assert forall|t: Seq<char>| #[trigger]
        crt.contains(t) <==> new_out.contains(t) && !old_out.contains(t) by {
        lemma_filter_membership(new_out, not_in(old_out), t);
    }
    assert(crt.to_set() =~= new_out.to_set().difference(old_out.to_set()));
    rem.unique_seq_to_set();
    crt.unique_seq_to_set();
}

/// A second identical update emits zero events: once a page's
/// outgoing target list equals what the link list yields, re-applying
/// the same links produces an empty diff.
pub proof fn lemma_second_identical_update_no_events(
    g: WikiGraph,
    name: Seq<char>,
    links: Seq<ParsedLink>,
)
    requires
        g.outgoing_seq(name) == dedup_first(target_seq(links)),
    ensures
        link_diff_events(name, g.outgoing_seq(name), dedup_first(target_seq(links)))
            == Seq::<EventV>::empty(),
{
    lemma_unchanged_links_no_events(name, g.outgoing_seq(name));
}

/// On a well-formed store, an update's event list has exactly one
/// entry per name in the symmetric difference of the old outgoing set
/// O and the new target set N: `|O \ N|` removals plus `|N \ O|`
/// creations, nothing for the intersection.
pub proof fn lemma_update_events_are_symmetric_difference(
    g: WikiGraph,
    name: Seq<char>,
    links: Seq<ParsedLink>,
)
    requires
        g.wf(),
    ensures
        ({
            let old_set = g.spec_outlinks(name);
            let new_set = target_seq(links).to_set();
            link_diff_events(name, g.outgoing_seq(name), dedup_first(target_seq(links))).len()
                == old_set.difference(new_set).len() + new_set.difference(old_set).len()
        }),
{
    let old_out = g.outgoing_seq(name);
    let new_out = dedup_first(target_seq(links));
    g.lemma_outgoing_no_duplicates(name);
    g.lemma_outgoing_set(name);
    lemma_dedup_no_duplicates(target_seq(links));
    lemma_diff_events_exact(name, old_out, new_out);
    assert forall|t: Seq<char>| #[trigger]
        new_out.contains(t) <==> target_seq(links).contains(t) by {
        lemma_dedup_contains(target_seq(links), t);
    }
    assert(new_out.to_set() =~= target_seq(links).to_set());
}

/// One parsed source file, ready for insertion into the graph.
#[derive(Debug)]
pub struct PageEntry {
    /// The page name, derived from the file name.
    pub name: String,

    /// Path of the source file relative to the data directory.
    pub file_path: String,

    /// Metadata parsed from the file's leading delimited block.
    pub metadata: Metadata,

    /// Links parsed from the file's body.
    pub links: Vec<ParsedLink>,

    /// Modification stamp of the file, in milliseconds.
    pub last_modified: u64,
}

/// Whether some entry carries the given page name.
pub open spec fn entries_has_name(es: Seq<PageEntry>, n: Seq<char>) -> bool {
    exists|i: int| 0 <= i < es.len() && (#[trigger] es[i]).name@ == n
}

/// Whether some entry links to the given page name.
pub open spec fn entries_has_target(es: Seq<PageEntry>, n: Seq<char>) -> bool {
    exists|i: int| 0 <= i < es.len() && target_seq((#[trigger] es[i]).links@).contains(n)
}

/// Whether some entry named `f` links to `t`.
pub open spec fn entries_link(es: Seq<PageEntry>, f: Seq<char>, t: Seq<char>) -> bool {
    exists|i: int|
        0 <= i < es.len() && (#[trigger] es[i]).name@ == f && target_seq(es[i].links@).contains(t)
}

/// The last entry carrying the given page name; its attributes win.
pub open spec fn last_entry_for(es: Seq<PageEntry>, n: Seq<char>) -> PageEntry
    decreases es.len(),
{
    if es.len() == 0 {
        arbitrary()
    } else if es.last().name@ == n {
        es.last()
    } else {
        last_entry_for(es.drop_last(), n)
    }
}

/// The directed graph of pages and links.
///
/// Pages are identified by name; the store keeps at most one page per
/// name and at most one link per ordered (from, to) pair, and every
/// link's endpoints are pages the store holds.
pub struct WikiGraph {
    pages: Vec<PageNode>,
    links: Vec<LinkEdge>,
}

impl WikiGraph {
    /// The stored pages, in insertion order.
    pub closed spec fn pages_view(&self) -> Seq<PageNode> {
        self.pages@
    }

    /// The stored links, in insertion order.
    pub closed spec fn links_view(&self) -> Seq<LinkEdge> {
        self.links@
    }

    /// Whether a page with the given name is stored.
    pub open spec fn spec_page_exists(&self, name: Seq<char>) -> bool {
        exists|i: int|
            0 <= i < self.pages_view().len() && #[trigger] self.pages_view()[i].name@ == name
    }

    /// The index of the page with the given name, when one exists.
    pub open spec fn page_index(&self, name: Seq<char>) -> int {
        choose|i: int|
            0 <= i < self.pages_view().len() && #[trigger] self.pages_view()[i].name@ == name
    }

    /// The stored page with the given name, when one exists.
    pub open spec fn page_at(&self, name: Seq<char>) -> PageNode {
        self.pages_view()[self.page_index(name)]
    }

    /// No two stored pages share a name.
    pub open spec fn names_unique(&self) -> bool {
        forall|i: int, j: int|
            0 <= i < j < self.pages_view().len() ==> #[trigger] self.pages_view()[i].name@
                != #[trigger] self.pages_view()[j].name@
    }

    /// No two stored links share the ordered (from, to) pair.
    pub open spec fn edges_unique(&self) -> bool {
        forall|i: int, j: int|
            0 <= i < j < self.links_view().len() ==> !((#[trigger] self.links_view()[i]).from@
                == (#[trigger] self.links_view()[j]).from@ && self.links_view()[i].to@
                == self.links_view()[j].to@)
    }

    /// Every stored link's endpoints are stored pages.
    pub open spec fn edges_grounded(&self) -> bool {
        forall|i: int|
            0 <= i < self.links_view().len() ==> self.spec_page_exists(
                (#[trigger] self.links_view()[i]).from@,
            ) && self.spec_page_exists(self.links_view()[i].to@)
    }

    /// The store's invariant.
    pub open spec fn wf(&self) -> bool {
        self.names_unique() && self.edges_unique() && self.edges_grounded()
    }

    /// Whether a link from `from` to `to` is stored.
    pub open spec fn spec_has_link(&self, from: Seq<char>, to: Seq<char>) -> bool {
        exists|i: int|
            0 <= i < self.links_view().len() && (#[trigger] self.links_view()[i]).from@ == from
                && self.links_view()[i].to@ == to
    }

    /// The set of names the named page links to.
    pub open spec fn spec_outlinks(&self, name: Seq<char>) -> Set<Seq<char>> {
        Set::new(|t: Seq<char>| self.spec_has_link(name, t))
    }

    /// The set of names that link to the named page.
    pub open spec fn spec_backlinks(&self, name: Seq<char>) -> Set<Seq<char>> {
        Set::new(|s: Seq<char>| self.spec_has_link(s, name))
    }

    /// The names the named page links to, in stored link order.
    pub open spec fn outgoing_seq(&self, name: Seq<char>) -> Seq<Seq<char>> {
        self.links_view().filter(edge_from_is(name)).map_values(edge_target())
    }

    /// The names that link to the named page, in stored link order.
    pub open spec fn incoming_seq(&self, name: Seq<char>) -> Seq<Seq<char>> {
        self.links_view().filter(edge_to_is(name)).map_values(edge_source())
    }

    /// The index of the stored link with the given endpoints, when one
    /// exists.
    pub open spec fn link_index(&self, from: Seq<char>, to: Seq<char>) -> int {
        choose|i: int|
            0 <= i < self.links_view().len() && (#[trigger] self.links_view()[i]).from@ == from
                && self.links_view()[i].to@ == to
    }

    /// The stored link with the given endpoints, when one exists.
    pub open spec fn link_at(&self, from: Seq<char>, to: Seq<char>) -> LinkEdge {
        self.links_view()[self.link_index(from, to)]
    }

    /// The link index is the one index holding the given endpoints.
    pub proof fn lemma_link_index(&self, from: Seq<char>, to: Seq<char>)
        requires
            self.edges_unique(),
            self.spec_has_link(from, to),
        ensures
            0 <= self.link_index(from, to) < self.links_view().len(),
            self.links_view()[self.link_index(from, to)].from@ == from,
            self.links_view()[self.link_index(from, to)].to@ == to,
            forall|i: int|
                0 <= i < self.links_view().len() && (#[trigger] self.links_view()[i]).from@
                    == from && self.links_view()[i].to@ == to ==> i == self.link_index(from, to),
    {
        let k = self.link_index(from, to);
        assert(0 <= k < self.links_view().len() && self.links_view()[k].from@ == from
            && self.links_view()[k].to@ == to);
    }

    /// A well-formed store lists each outgoing target once.
    pub proof fn lemma_outgoing_no_duplicates(&self, name: Seq<char>)
        requires
            self.wf(),
        ensures
            self.outgoing_seq(name).no_duplicates(),
    {
        let pred = edge_from_is(name);
        let filtered = self.links_view().filter(pred);
        lemma_edge_filter_unique(self.links_view(), pred);
        assert forall|i: int, j: int|
            0 <= i < j < self.outgoing_seq(name).len() implies self.outgoing_seq(name)[i]
            != self.outgoing_seq(name)[j] by {
            self.links_view().lemma_filter_pred(pred, i);
            self.links_view().lemma_filter_pred(pred, j);
            assert(self.outgoing_seq(name)[i] == filtered[i].to@);
            assert(self.outgoing_seq(name)[j] == filtered[j].to@);
            assert(!(filtered[i].from@ == filtered[j].from@ && filtered[i].to@
                == filtered[j].to@));
        }
    }

    /// A name stands among a page's outgoing targets exactly when the
    /// store holds that link.
    pub proof fn lemma_outgoing_membership(&self, name: Seq<char>, t: Seq<char>)
        ensures
            self.outgoing_seq(name).contains(t) <==> self.spec_has_link(name, t),
    {
        let pred = edge_from_is(name);
        let filtered = self.links_view().filter(pred);
        if self.outgoing_seq(name).contains(t) {
            let k = choose|k: int|
                0 <= k < self.outgoing_seq(name).len() && #[trigger] self.outgoing_seq(name)[k]
                    == t;
            assert(self.outgoing_seq(name)[k] == filtered[k].to@);
            self.links_view().lemma_filter_pred(pred, k);
            let j = lemma_filter_element_index(self.links_view(), pred, k);
            assert(self.links_view()[j].from@ == name && self.links_view()[j].to@ == t);
        }
        if self.spec_has_link(name, t) {
            let j = choose|j: int|
                0 <= j < self.links_view().len() && (#[trigger] self.links_view()[j]).from@
                    == name && self.links_view()[j].to@ == t;
            self.links_view().lemma_filter_contains(pred, j);
            let e = self.links_view()[j];
            let k = choose|k: int| 0 <= k < filtered.len() && filtered[k] == e;
            assert(self.outgoing_seq(name)[k] == t);
        }
    }

    /// A name stands among a page's incoming sources exactly when the
    /// store holds that link.
    pub proof fn lemma_incoming_membership(&self, name: Seq<char>, s: Seq<char>)
        ensures
            self.incoming_seq(name).contains(s) <==> self.spec_has_link(s, name),
    {
        let pred = edge_to_is(name);
        let filtered = self.links_view().filter(pred);
        if self.incoming_seq(name).contains(s) {
            let k = choose|k: int|
                0 <= k < self.incoming_seq(name).len() && #[trigger] self.incoming_seq(name)[k]
                    == s;
            assert(self.incoming_seq(name)[k] == filtered[k].from@);
            self.links_view().lemma_filter_pred(pred, k);
            let j = lemma_filter_element_index(self.links_view(), pred, k);
            assert(self.links_view()[j].to@ == name && self.links_view()[j].from@ == s);
        }
        if self.spec_has_link(s, name) {
            let j = choose|j: int|
                0 <= j < self.links_view().len() && (#[trigger] self.links_view()[j]).from@ == s
                    && self.links_view()[j].to@ == name;
            self.links_view().lemma_filter_contains(pred, j);
            let e = self.links_view()[j];
            let k = choose|k: int| 0 <= k < filtered.len() && filtered[k] == e;
            assert(self.incoming_seq(name)[k] == s);
        }
    }

    /// The outgoing target list holds exactly the outgoing link set.
    pub proof fn lemma_outgoing_set(&self, name: Seq<char>)
        ensures
            self.outgoing_seq(name).to_set() == self.spec_outlinks(name),
    {
        assert forall|t: Seq<char>| #[trigger]
            self.outgoing_seq(name).contains(t) <==> self.spec_has_link(name, t) by {
            self.lemma_outgoing_membership(name, t);
        }
        assert(self.outgoing_seq(name).to_set() =~= self.spec_outlinks(name));
    }

    /// The incoming source list holds exactly the backlink set.
    pub proof fn lemma_incoming_set(&self, name: Seq<char>)
        ensures
            self.incoming_seq(name).to_set() == self.spec_backlinks(name),
    {
        assert forall|s: Seq<char>| #[trigger]
            self.incoming_seq(name).contains(s) <==> self.spec_has_link(s, name) by {
            self.lemma_incoming_membership(name, s);
        }
        assert(self.incoming_seq(name).to_set() =~= self.spec_backlinks(name));
    }

    /// Both the name lookup and the stored page carry over between
    /// states with the same pages.
    proof fn lemma_same_pages_page_at(a: Self, b: Self, n: Seq<char>)
        requires
            a.pages_view() == b.pages_view(),
            a.names_unique(),
            a.spec_page_exists(n),
        ensures
            b.spec_page_exists(n),
            b.page_at(n) == a.page_at(n),
            b.page_index(n) == a.page_index(n),
    {
        Self::lemma_exists_same_pages(a, b, n);
        a.lemma_page_index(n);
        assert(b.names_unique());
        b.lemma_page_index(n);
        assert(b.pages_view()[a.page_index(n)].name@ == n);
    }

    /// Page existence carries over between states with the same pages.
    proof fn lemma_exists_same_pages(a: Self, b: Self, name: Seq<char>)
        requires
            a.pages_view() == b.pages_view(),
            a.spec_page_exists(name),
        ensures
            b.spec_page_exists(name),
    {
        let k = choose|i: int|
            0 <= i < a.pages_view().len() && #[trigger] a.pages_view()[i].name@ == name;
        assert(b.pages_view()[k].name@ == name);
    }

    /// The page index is the one index holding the given name.
    pub proof fn lemma_page_index(&self, name: Seq<char>)
        requires
            self.names_unique(),
            self.spec_page_exists(name),
        ensures
            0 <= self.page_index(name) < self.pages_view().len(),
            self.pages_view()[self.page_index(name)].name@ == name,
            forall|i: int|
                0 <= i < self.pages_view().len() && #[trigger] self.pages_view()[i].name@ == name
                    ==> i == self.page_index(name),
    {
        let k = self.page_index(name);
        assert(0 <= k < self.pages_view().len() && self.pages_view()[k].name@ == name);
    }

    /// Create an empty graph.
    pub fn new() -> (r: Self)
        ensures
            r.wf(),
            r.pages_view() == Seq::<PageNode>::empty(),
            r.links_view() == Seq::<LinkEdge>::empty(),
    {
        let r = Self { pages: Vec::new(), links: Vec::new() };
        proof {
            assert(r.pages_view() =~= Seq::<PageNode>::empty());
            assert(r.links_view() =~= Seq::<LinkEdge>::empty());
        }
        r
    }

    /// Index of the stored page with the given name, scanning in
    /// order.
    fn find_page(&self, name: &str) -> (r: Option<usize>)
        ensures
            match r {
                Some(i) => 0 <= i < self.pages_view().len() && self.pages_view()[
                    i as int
                ].name@ == name@,
                None => !self.spec_page_exists(name@),
            },
    {
        let n = self.pages.len();
        for i in 0..n
            invariant
                n == self.pages.len(),
                forall|j: int| 0 <= j < i ==> #[trigger] self.pages_view()[j].name@ != name@,
        {
            if str_eq(self.pages[i].name.as_str(), name) {
                return Some(i);
            }
        }
        None
    }

    /// Insert a page, or overwrite the attributes of the page with the
    /// same name, leaving every link and every other page untouched.
    pub fn add_page(&mut self, page: PageNode) -> (existed: bool)
        requires
            old(self).wf(),
        ensures
            final(self).wf(),
            final(self).links_view() == old(self).links_view(),
            existed == old(self).spec_page_exists(page.name@),
            final(self).spec_page_exists(page.name@),
            final(self).page_at(page.name@) == page,
            forall|n: Seq<char>|
                #[trigger] final(self).spec_page_exists(n) <==> old(self).spec_page_exists(n)
                    || n == page.name@,
            forall|n: Seq<char>|
                n != page.name@ && old(self).spec_page_exists(n)
                    ==> #[trigger] final(self).page_at(n) == old(self).page_at(n),
            (if old(self).spec_page_exists(page.name@) {
                final(self).pages_view() == old(self).pages_view().update(
                    old(self).page_index(page.name@),
                    page,
                )
            } else {
                final(self).pages_view() == old(self).pages_view().push(page)
            }),
    {
        let found = self.find_page(page.name.as_str());
        match found {
            Some(i) => {
                proof {
                    old(self).lemma_page_index(page.name@);
                }
                self.pages.set(i, page);
                proof {
                    self.lemma_add_page_update(*old(self), page, i as int);
                }
                true
            },
            None => {
                self.pages.push(page);
                proof {
                    self.lemma_add_page_push(*old(self), page);
                }
                false
            },
        }
    }

    /// Overwriting the page at the index holding its name preserves the
    /// invariant and every other page.
    proof fn lemma_add_page_update(&self, prev: Self, page: PageNode, i: int)
        requires
            prev.wf(),
            0 <= i < prev.pages_view().len(),
            prev.pages_view()[i].name@ == page.name@,
            self.pages_view() == prev.pages_view().update(i, page),
            self.links_view() == prev.links_view(),
        ensures
            self.wf(),
            self.spec_page_exists(page.name@),
            self.page_at(page.name@) == page,
            forall|n: Seq<char>|
                #[trigger] self.spec_page_exists(n) <==> prev.spec_page_exists(n) || n
                    == page.name@,
            forall|n: Seq<char>|
                n != page.name@ && prev.spec_page_exists(n) ==> #[trigger] self.page_at(n)
                    == prev.page_at(n),
    {
        assert forall|n: Seq<char>| #[trigger]
            self.spec_page_exists(n) <==> prev.spec_page_exists(n) || n == page.name@ by {
            if self.spec_page_exists(n) {
                let k = choose|k: int|
                    0 <= k < self.pages_view().len() && #[trigger] self.pages_view()[k].name@
                        == n;
                if k != i {
                    assert(prev.pages_view()[k].name@ == n);
                }
            }
            if prev.spec_page_exists(n) && n != page.name@ {
                let k = choose|k: int|
                    0 <= k < prev.pages_view().len() && #[trigger] prev.pages_view()[k].name@
                        == n;
                assert(self.pages_view()[k].name@ == n);
            }
            if n == page.name@ {
                assert(self.pages_view()[i].name@ == n);
            }
        }
        assert(self.names_unique());
        assert forall|n: Seq<char>|
            n != page.name@ && prev.spec_page_exists(n) implies #[trigger] self.page_at(n)
            == prev.page_at(n) by {
            prev.lemma_page_index(n);
            self.lemma_page_index(n);
            let k = prev.page_index(n);
            assert(self.pages_view()[k].name@ == n);
        }
        self.lemma_page_index(page.name@);
        assert(self.pages_view()[i].name@ == page.name@);
        assert(self.edges_grounded());
    }

    /// Appending a page under a fresh name preserves the invariant and
    /// every other page.
    proof fn lemma_add_page_push(&self, prev: Self, page: PageNode)
        requires
            prev.wf(),
            !prev.spec_page_exists(page.name@),
            self.pages_view() == prev.pages_view().push(page),
            self.links_view() == prev.links_view(),
        ensures
            self.wf(),
            self.spec_page_exists(page.name@),
            self.page_at(page.name@) == page,
            forall|n: Seq<char>|
                #[trigger] self.spec_page_exists(n) <==> prev.spec_page_exists(n) || n
                    == page.name@,
            forall|n: Seq<char>|
                n != page.name@ && prev.spec_page_exists(n) ==> #[trigger] self.page_at(n)
                    == prev.page_at(n),
    {
        let len = prev.pages_view().len() as int;
        assert(self.pages_view()[len].name@ == page.name@);
        assert forall|n: Seq<char>| #[trigger]
            self.spec_page_exists(n) <==> prev.spec_page_exists(n) || n == page.name@ by {
            if self.spec_page_exists(n) {
                let k = choose|k: int|
                    0 <= k < self.pages_view().len() && #[trigger] self.pages_view()[k].name@
                        == n;
                if k < len {
                    assert(prev.pages_view()[k].name@ == n);
                }
            }
            if prev.spec_page_exists(n) {
                let k = choose|k: int|
                    0 <= k < prev.pages_view().len() && #[trigger] prev.pages_view()[k].name@
                        == n;
                assert(self.pages_view()[k].name@ == n);
            }
        }
        assert(self.names_unique());
        assert forall|n: Seq<char>|
            n != page.name@ && prev.spec_page_exists(n) implies #[trigger] self.page_at(n)
            == prev.page_at(n) by {
            prev.lemma_page_index(n);
            self.lemma_page_index(n);
            let k = prev.page_index(n);
            assert(self.pages_view()[k].name@ == n);
        }
        self.lemma_page_index(page.name@);
        assert(self.edges_grounded());
    }

    /// Look up a page by name; absence is a normal result.
    pub fn get_page(&self, name: &str) -> (r: Option<&PageNode>)
        requires
            self.wf(),
        ensures
            match r {
                Some(p) => self.spec_page_exists(name@) && *p == self.page_at(name@),
                None => !self.spec_page_exists(name@),
            },
    {
        match self.find_page(name) {
            Some(i) => {
                proof {
                    self.lemma_page_index(name@);
                }
                Some(&self.pages[i])
            },
            None => None,
        }
    }

    /// Whether a page with the given name is stored.
    pub fn page_exists(&self, name: &str) -> (r: bool)
        ensures
            r == self.spec_page_exists(name@),
    {
        self.find_page(name).is_some()
    }

    /// Number of stored pages.
    pub fn page_count(&self) -> (r: usize)
        ensures
            r == self.pages_view().len(),
    {
        self.pages.len()
    }

    /// Number of stored links.
    pub fn link_count(&self) -> (r: usize)
        ensures
            r == self.links_view().len(),
    {
        self.links.len()
    }

    /// All stored pages, in insertion order.
    pub fn list_pages(&self) -> (r: Vec<&PageNode>)
        ensures
            r@.len() == self.pages_view().len(),
            forall|i: int| 0 <= i < r@.len() ==> *(#[trigger] r@[i]) == self.pages_view()[i],
    {
        let mut r: Vec<&PageNode> = Vec::new();
        let n = self.pages.len();
        for i in 0..n
            invariant
                n == self.pages.len(),
                r@.len() == i,
                forall|j: int| 0 <= j < i ==> *(#[trigger] r@[j]) == self.pages_view()[j],
        {
            r.push(&self.pages[i]);
        }
        r
    }

    /// Whether a link from `from` to `to` is stored.
    fn has_link(&self, from: &str, to: &str) -> (r: bool)
        ensures
            r == self.spec_has_link(from@, to@),
    {
        let n = self.links.len();
        for i in 0..n
            invariant
                n == self.links.len(),
                forall|j: int|
                    0 <= j < i ==> !((#[trigger] self.links_view()[j]).from@ == from@
                        && self.links_view()[j].to@ == to@),
        {
            if str_eq(self.links[i].from.as_str(), from) && str_eq(
                self.links[i].to.as_str(),
                to,
            ) {
                return true;
            }
        }
        false
    }

    /// Add a link between two stored pages.
    ///
    /// Reports failure, changing nothing, if either endpoint is absent;
    /// adding a link that already exists changes nothing and succeeds.
    pub fn add_link(&mut self, from: &str, to: &str, link: WikiLink) -> (r: bool)
        requires
            old(self).wf(),
        ensures
            final(self).wf(),
            final(self).pages_view() == old(self).pages_view(),
            r == (old(self).spec_page_exists(from@) && old(self).spec_page_exists(to@)),
            (!r || old(self).spec_has_link(from@, to@)) ==> final(self).links_view() == old(
                self,
            ).links_view(),
            (r && !old(self).spec_has_link(from@, to@)) ==> ({
                let e = final(self).links_view().last();
                &&& final(self).links_view() == old(self).links_view().push(e)
                &&& e.from@ == from@
                &&& e.to@ == to@
                &&& e.data == link
            }),
    {
        let from_ok = self.page_exists(from);
        let to_ok = self.page_exists(to);
        if from_ok && to_ok {
            if !self.has_link(from, to) {
                let edge = LinkEdge { from: from.to_owned(), to: to.to_owned(), data: link };
                self.links.push(edge);
                proof {
                    assert forall|i: int, j: int|
                        0 <= i < j < self.links_view().len() implies !((
                        #[trigger] self.links_view()[i]).from@ == (
                        #[trigger] self.links_view()[j]).from@ && self.links_view()[i].to@
                        == self.links_view()[j].to@) by {
                        if j == self.links_view().len() - 1 {
                            assert(!(old(self).links_view()[i].from@ == from@ && old(
                                self,
                            ).links_view()[i].to@ == to@));
                        }
                    }
                    assert forall|i: int|
                        0 <= i < self.links_view().len() implies self.spec_page_exists(
                        (#[trigger] self.links_view()[i]).from@,
                    ) && self.spec_page_exists(self.links_view()[i].to@) by {
                        if i < self.links_view().len() - 1 {
                            assert(self.links_view()[i] == old(self).links_view()[i]);
                            Self::lemma_exists_same_pages(
                                *old(self),
                                *self,
                                old(self).links_view()[i].from@,
                            );
                            Self::lemma_exists_same_pages(
                                *old(self),
                                *self,
                                old(self).links_view()[i].to@,
                            );
                        } else {
                            assert(self.links_view()[i].from@ == from@);
                            assert(self.links_view()[i].to@ == to@);
                            Self::lemma_exists_same_pages(*old(self), *self, from@);
                            Self::lemma_exists_same_pages(*old(self), *self, to@);
                        }
                    }
                }
            }
            true
        } else {
            false
        }
    }

    /// Names the given page links to; empty if the page is absent.
    pub fn get_outlinks(&self, name: &str) -> (r: Vec<String>)
        ensures
            r.deep_view() == self.outgoing_seq(name@),
    {
        let mut r: Vec<String> = Vec::new();
        let ghost pred = edge_from_is(name@);
        proof {
            assert(self.links_view().take(0).filter(pred) =~= Seq::<LinkEdge>::empty());
            assert(r.deep_view() =~= self.links_view().take(0).filter(pred).map_values(
                edge_target(),
            ));
        }
        let n = self.links.len();
        for i in 0..n
            invariant
                n == self.links.len(),
                pred == edge_from_is(name@),
                r.deep_view() == self.links_view().take(i as int).filter(pred).map_values(
                    edge_target(),
                ),
        {
            proof {
                assert(self.links_view().take(i + 1) =~= self.links_view().take(
                    i as int,
                ).push(self.links_view()[i as int]));
                self.links_view().take(i as int).lemma_filter_push(
                    self.links_view()[i as int],
                    pred,
                );
            }
            if str_eq(self.links[i].from.as_str(), name) {
                let ghost prevr = r@;
                let ghost prevd = r.deep_view();
                r.push(self.links[i].to.clone());
                proof {
                    let ghost e = self.links_view()[i as int];
                    assert(pred(e));
                    assert(self.links_view().take(i + 1).filter(pred) == self.links_view().take(
                        i as int,
                    ).filter(pred).push(e));
                    assert(prevd == self.links_view().take(i as int).filter(pred).map_values(
                        edge_target(),
                    ));
                    assert(prevd.len() == prevr.len());
                    assert(r@ == prevr.push(r@.last()));
                    assert(r@.len() == self.links_view().take(i + 1).filter(pred).len());
                    assert(r@.last()@ == e.to@);
                    let ghost target = self.links_view().take(i + 1).filter(pred).map_values(
                        edge_target(),
                    );
                    assert(r.deep_view().len() == target.len());
                    assert forall|k: int|
                        0 <= k < r.deep_view().len() implies #[trigger] r.deep_view()[k]
                        == target[k] by {
                        assert(r.deep_view()[k] == r@[k]@);
                        assert(target[k] == self.links_view().take(i + 1).filter(pred)[k].to@);
                        if k < prevr.len() {
                            assert(r@[k] == prevr[k]);
                            assert(prevd[k] == prevr[k]@);
                            assert(prevd[k] == self.links_view().take(i as int).filter(
                                pred,
                            ).map_values(edge_target())[k]);
                            assert(self.links_view().take(i + 1).filter(pred)[k]
                                == self.links_view().take(i as int).filter(pred)[k]);
                        } else {
                            assert(r@[k] == r@.last());
                            assert(self.links_view().take(i + 1).filter(pred)[k] == e);
                        }
                    }
                    assert(r.deep_view() =~= target);
                }
            } else {
                proof {
                    assert(!pred(self.links_view()[i as int]));
                    assert(r.deep_view() =~= self.links_view().take(i + 1).filter(
                        pred,
                    ).map_values(edge_target()));
                }
            }
        }
        proof {
            assert(self.links_view().take(n as int) =~= self.links_view());
        }
        r
    }

    /// Names that link to the given page; empty if the page is absent.
    pub fn get_backlinks(&self, name: &str) -> (r: Vec<String>)
        ensures
            r.deep_view() == self.incoming_seq(name@),
    {
        let mut r: Vec<String> = Vec::new();
        let ghost pred = edge_to_is(name@);
        proof {
            assert(self.links_view().take(0).filter(pred) =~= Seq::<LinkEdge>::empty());
            assert(r.deep_view() =~= self.links_view().take(0).filter(pred).map_values(
                edge_source(),
            ));
        }
        let n = self.links.len();
        for i in 0..n
            invariant
                n == self.links.len(),
                pred == edge_to_is(name@),
                r.deep_view() == self.links_view().take(i as int).filter(pred).map_values(
                    edge_source(),
                ),
        {
            proof {
                assert(self.links_view().take(i + 1) =~= self.links_view().take(
                    i as int,
                ).push(self.links_view()[i as int]));
                self.links_view().take(i as int).lemma_filter_push(
                    self.links_view()[i as int],
                    pred,
                );
            }
            if str_eq(self.links[i].to.as_str(), name) {
                let ghost prevr = r@;
                let ghost prevd = r.deep_view();
                r.push(self.links[i].from.clone());
                proof {
                    let ghost e = self.links_view()[i as int];
                    assert(pred(e));
                    assert(self.links_view().take(i + 1).filter(pred) == self.links_view().take(
                        i as int,
                    ).filter(pred).push(e));
                    assert(prevd == self.links_view().take(i as int).filter(pred).map_values(
                        edge_source(),
                    ));
                    assert(prevd.len() == prevr.len());
                    assert(r@ == prevr.push(r@.last()));
                    assert(r@.len() == self.links_view().take(i + 1).filter(pred).len());
                    assert(r@.last()@ == e.from@);
                    let ghost target = self.links_view().take(i + 1).filter(pred).map_values(
                        edge_source(),
                    );
                    assert(r.deep_view().len() == target.len());
                    assert forall|k: int|
                        0 <= k < r.deep_view().len() implies #[trigger] r.deep_view()[k]
                        == target[k] by {
                        assert(r.deep_view()[k] == r@[k]@);
                        assert(target[k] == self.links_view().take(i + 1).filter(
                            pred,
                        )[k].from@);
                        if k < prevr.len() {
                            assert(r@[k] == prevr[k]);
                            assert(prevd[k] == prevr[k]@);
                            assert(prevd[k] == self.links_view().take(i as int).filter(
                                pred,
                            ).map_values(edge_source())[k]);
                            assert(self.links_view().take(i + 1).filter(pred)[k]
                                == self.links_view().take(i as int).filter(pred)[k]);
                        } else {
                            assert(r@[k] == r@.last());
                            assert(self.links_view().take(i + 1).filter(pred)[k] == e);
                        }
                    }
                    assert(r.deep_view() =~= target);
                }
            } else {
                proof {
                    assert(!pred(self.links_view()[i as int]));
                    assert(r.deep_view() =~= self.links_view().take(i + 1).filter(
                        pred,
                    ).map_values(edge_source()));
                }
            }
        }
        proof {
            assert(self.links_view().take(n as int) =~= self.links_view());
        }
        r
    }

    /// The stored links that satisfy the predicate checked by the
    /// caller, in order; a building block for edge removal.
    fn kept_links(&self, name: &str, spare_incoming: bool) -> (r: Vec<LinkEdge>)
        ensures
            r@ == self.links_view().filter(
                if spare_incoming {
                    edge_not_from(name@)
                } else {
                    edge_avoids(name@)
                },
            ),
    {
        let ghost pred = if spare_incoming {
            edge_not_from(name@)
        } else {
            edge_avoids(name@)
        };
        let mut r: Vec<LinkEdge> = Vec::new();
        proof {
            assert(self.links_view().take(0).filter(pred) =~= Seq::<LinkEdge>::empty());
            assert(r@ =~= self.links_view().take(0).filter(pred));
        }
        let n = self.links.len();
        for i in 0..n
            invariant
                n == self.links.len(),
                pred == (if spare_incoming {
                    edge_not_from(name@)
                } else {
                    edge_avoids(name@)
                }),
                r@ == self.links_view().take(i as int).filter(pred),
        {
            proof {
                assert(self.links_view().take(i + 1) =~= self.links_view().take(
                    i as int,
                ).push(self.links_view()[i as int]));
                self.links_view().take(i as int).lemma_filter_push(
                    self.links_view()[i as int],
                    pred,
                );
            }
            let from_hits = str_eq(self.links[i].from.as_str(), name);
            let to_hits = str_eq(self.links[i].to.as_str(), name);
            let keep = if spare_incoming {
                !from_hits
            } else {
                !from_hits && !to_hits
            };
            if keep {
                r.push(self.links[i].clone());
                proof {
                    assert(pred(self.links_view()[i as int]));
                }
            } else {
                proof {
                    assert(!pred(self.links_view()[i as int]));
                }
            }
        }
        proof {
            assert(self.links_view().take(n as int) =~= self.links_view());
        }
        r
    }

    /// Delete every link sourced at the named page, ahead of a re-scan
    /// replacing its link set.
    pub fn remove_outgoing_edges(&mut self, name: &str)
        requires
            old(self).wf(),
        ensures
            final(self).wf(),
            final(self).pages_view() == old(self).pages_view(),
            final(self).links_view() == old(self).links_view().filter(edge_not_from(name@)),
    {
        let kept = self.kept_links(name, true);
        self.links = kept;
        proof {
            self.lemma_filtered_links_wf(*old(self), edge_not_from(name@));
        }
    }

    /// After replacing the links with a filtered subsequence over an
    /// unchanged page set, the invariant still holds.
    proof fn lemma_filtered_links_wf(&self, prev: Self, p: spec_fn(LinkEdge) -> bool)
        requires
            prev.wf(),
            self.pages_view() == prev.pages_view(),
            self.links_view() == prev.links_view().filter(p),
        ensures
            self.wf(),
    {
        lemma_edge_filter_unique(prev.links_view(), p);
        assert forall|i: int|
            0 <= i < self.links_view().len() implies self.spec_page_exists(
            (#[trigger] self.links_view()[i]).from@,
        ) && self.spec_page_exists(self.links_view()[i].to@) by {
            let k = lemma_filter_element_index(prev.links_view(), p, i);
            Self::lemma_exists_same_pages(prev, *self, prev.links_view()[k].from@);
            Self::lemma_exists_same_pages(prev, *self, prev.links_view()[k].to@);
        }
    }

    /// After removing the page at index `k`, the name index stays valid
    /// for every surviving page.
    proof fn lemma_remove_page_names(prev: Self, cur: Self, k: int, name: Seq<char>)
        requires
            prev.names_unique(),
            0 <= k < prev.pages_view().len(),
            prev.pages_view()[k].name@ == name,
            cur.pages_view() == prev.pages_view().remove(k),
        ensures
            cur.names_unique(),
            !cur.spec_page_exists(name),
            forall|n: Seq<char>|
                n != name ==> (#[trigger] cur.spec_page_exists(n) <==> prev.spec_page_exists(
                    n,
                )),
            forall|n: Seq<char>|
                n != name && prev.spec_page_exists(n) ==> #[trigger] cur.page_at(n)
                    == prev.page_at(n),
    {
        assert forall|x: int|
            0 <= x < cur.pages_view().len() implies #[trigger] cur.pages_view()[x]
            == prev.pages_view()[
            if x < k {
                x
            } else {
                x + 1
            }
        ] by {}
        assert forall|i: int, j: int|
            0 <= i < j < cur.pages_view().len() implies #[trigger] cur.pages_view()[i].name@
            != #[trigger] cur.pages_view()[j].name@ by {
            let pi: int = if i < k {
                i
            } else {
                i + 1
            };
            let pj: int = if j < k {
                j
            } else {
                j + 1
            };
            assert(prev.pages_view()[pi].name@ != prev.pages_view()[pj].name@);
        }
        assert forall|n: Seq<char>| #[trigger]
            cur.spec_page_exists(n) implies prev.spec_page_exists(n) && (n == name ==> false) by {
            let x = choose|x: int|
                0 <= x < cur.pages_view().len() && #[trigger] cur.pages_view()[x].name@ == n;
            let px: int = if x < k {
                x
            } else {
                x + 1
            };
            assert(prev.pages_view()[px].name@ == n);
            if n == name {
                assert(px != k);
                assert(prev.pages_view()[px].name@ == prev.pages_view()[k].name@);
            }
        }
        assert forall|n: Seq<char>|
            n != name && prev.spec_page_exists(n) implies cur.spec_page_exists(n) by {
            let px = choose|px: int|
                0 <= px < prev.pages_view().len() && #[trigger] prev.pages_view()[px].name@
                    == n;
            assert(px != k);
            let x: int = if px < k {
                px
            } else {
                px - 1
            };
            assert(cur.pages_view()[x].name@ == n);
        }
        assert forall|n: Seq<char>|
            n != name && prev.spec_page_exists(n) implies #[trigger] cur.page_at(n)
            == prev.page_at(n) by {
            prev.lemma_page_index(n);
            cur.lemma_page_index(n);
            let ci = cur.page_index(n);
            let pi: int = if ci < k {
                ci
            } else {
                ci + 1
            };
            assert(prev.pages_view()[pi].name@ == n);
            assert(pi == prev.page_index(n));
        }
    }

    /// Remove a page and every link incident to it, in either
    /// direction; the name index stays valid for every surviving page.
    pub fn remove_page(&mut self, name: &str) -> (r: bool)
        requires
            old(self).wf(),
        ensures
            final(self).wf(),
            r == old(self).spec_page_exists(name@),
            !final(self).spec_page_exists(name@),
            forall|n: Seq<char>|
                n != name@ ==> (#[trigger] final(self).spec_page_exists(n) <==> old(
                    self,
                ).spec_page_exists(n)),
            forall|n: Seq<char>|
                n != name@ && old(self).spec_page_exists(n)
                    ==> #[trigger] final(self).page_at(n) == old(self).page_at(n),
            (if old(self).spec_page_exists(name@) {
                final(self).pages_view() == old(self).pages_view().remove(
                    old(self).page_index(name@),
                )
            } else {
                final(self).pages_view() == old(self).pages_view()
            }),
            final(self).links_view() == old(self).links_view().filter(edge_avoids(name@)),
            final(self).links_view().len() + old(self).links_view().filter(
                edge_touches(name@),
            ).len() == old(self).links_view().len(),
    {
        let found = self.find_page(name);
        match found {
            None => {
                proof {
                    assert forall|i: int|
                        0 <= i < self.links_view().len() implies edge_avoids(name@)(
                        #[trigger] self.links_view()[i],
                    ) by {
                        if self.links_view()[i].from@ == name@ {
                            assert(self.spec_page_exists(name@));
                        }
                        if self.links_view()[i].to@ == name@ {
                            assert(self.spec_page_exists(name@));
                        }
                    }
                    lemma_filter_all_true(self.links_view(), edge_avoids(name@));
                    lemma_filter_complement_len(
                        self.links_view(),
                        edge_avoids(name@),
                        edge_touches(name@),
                    );
                }
                false
            },
            Some(i) => {
                proof {
                    old(self).lemma_page_index(name@);
                }
                self.pages.remove(i);
                let kept = self.kept_links(name, false);
                self.links = kept;
                proof {
                    Self::lemma_remove_page_names(*old(self), *self, i as int, name@);
                    lemma_edge_filter_unique(old(self).links_view(), edge_avoids(name@));
                    assert forall|j: int|
                        0 <= j < self.links_view().len() implies self.spec_page_exists(
                        (#[trigger] self.links_view()[j]).from@,
                    ) && self.spec_page_exists(self.links_view()[j].to@) by {
                        let k = lemma_filter_element_index(
                            old(self).links_view(),
                            edge_avoids(name@),
                            j,
                        );
                        assert(edge_avoids(name@)(self.links_view()[j]));
                    }
                    lemma_filter_complement_len(
                        old(self).links_view(),
                        edge_avoids(name@),
                        edge_touches(name@),
                    );
                }
                true
            },
        }
    }

    /// Re-scan a page: overwrite its attributes, replace its outgoing
    /// link set with the parsed links (materializing a stub page for
    /// each target seen for the first time), and report the link diff.
    ///
    /// Exactly one `LinkRemoved` is returned per target linked before
    /// but not after, in old link order, then one `LinkCreated` per
    /// target linked after but not before, in new link order; nothing
    /// for targets linked both before and after.
    pub fn update_page(
        &mut self,
        name: &str,
        file_path: String,
        metadata: Metadata,
        links: Vec<ParsedLink>,
        last_modified: u64,
    ) -> (r: Vec<GraphEvent>)
        requires
            old(self).wf(),
        ensures
            final(self).wf(),
            final(self).spec_page_exists(name@),
            final(self).page_at(name@).name@ == name@,
            final(self).page_at(name@).file_path == file_path,
            final(self).page_at(name@).metadata == metadata,
            final(self).page_at(name@).last_modified == last_modified,
            forall|n: Seq<char>|
                #[trigger] final(self).spec_page_exists(n) <==> old(self).spec_page_exists(n)
                    || n == name@ || target_seq(links@).contains(n),
            forall|n: Seq<char>|
                n != name@ && old(self).spec_page_exists(n)
                    ==> #[trigger] final(self).page_at(n) == old(self).page_at(n),
            forall|n: Seq<char>|
                !old(self).spec_page_exists(n) && n != name@ && target_seq(links@).contains(n)
                    ==> ((#[trigger] final(self).page_at(n)).name@ == n && final(self).page_at(
                    n,
                ).metadata@.len() == 0 && final(self).page_at(n).file_path@ == n + ".md"@
                    && final(self).page_at(n).last_modified == 0),
            forall|f: Seq<char>, t: Seq<char>|
                f != name@ ==> (#[trigger] final(self).spec_has_link(f, t) <==> old(
                    self,
                ).spec_has_link(f, t)),
            final(self).outgoing_seq(name@) == dedup_first(target_seq(links@)),
            forall|t: Seq<char>|
                #[trigger] final(self).spec_has_link(name@, t) <==> target_seq(
                    links@,
                ).contains(t),
            forall|t: Seq<char>|
                target_seq(links@).contains(t) ==> (#[trigger] final(self).link_at(
                    name@,
                    t,
                )).data.display_text == first_display(links@, t),
            r.deep_view() == link_diff_events(
                name@,
                old(self).outgoing_seq(name@),
                dedup_first(target_seq(links@)),
            ),
    {
        let old_out: Vec<String> = self.get_outlinks(name);
        let page = PageNode::with_metadata(name.to_owned(), file_path, metadata, last_modified);
        let _had_page = self.add_page(page);
        let ghost g1 = *self;
        self.remove_outgoing_edges(name);
        let ghost gu = *self;
        let ghost base = gu.links_view();
        proof {
            assert forall|k: int| 0 <= k < base.len() implies (#[trigger] base[k]).from@
                != name@ by {
                g1.links_view().lemma_filter_pred(edge_not_from(name@), k);
            }
            assert(gu.spec_page_exists(name@)) by {
                Self::lemma_exists_same_pages(g1, gu, name@);
            }
            gu.lemma_page_index(name@);
        }
        let mut new_out: Vec<String> = Vec::new();
        let n = links.len();
        proof {
            assert(target_seq(links@.take(0)) =~= Seq::<Seq<char>>::empty());
            assert(new_out.deep_view() =~= dedup_first(target_seq(links@.take(0))));
        }
        for i in 0..n
            invariant
                n == links.len(),
                self.wf(),
                base == gu.links_view(),
                gu.wf(),
                gu.spec_page_exists(name@),
                forall|k: int| 0 <= k < base.len() ==> (#[trigger] base[k]).from@ != name@,
                self.links_view().len() == base.len() + new_out@.len(),
                forall|k: int|
                    0 <= k < base.len() ==> #[trigger] self.links_view()[k] == base[k],
                new_out@.len() == new_out.deep_view().len(),
                forall|k: int|
                    0 <= k < new_out@.len() ==> ({
                        let e = #[trigger] self.links_view()[base.len() + k];
                        e.from@ == name@ && e.to@ == new_out@[k]@ && e.data.display_text
                            == first_display(links@, new_out@[k]@)
                    }),
                forall|k: int|
                    0 <= k < new_out@.len() ==> #[trigger] new_out.deep_view()[k]
                        == new_out@[k]@,
                new_out.deep_view() == dedup_first(target_seq(links@.take(i as int))),
                forall|nm: Seq<char>|
                    #[trigger] self.spec_page_exists(nm) <==> gu.spec_page_exists(nm)
                        || target_seq(links@.take(i as int)).contains(nm),
                forall|nm: Seq<char>|
                    nm != name@ && gu.spec_page_exists(nm) ==> #[trigger] self.page_at(nm)
                        == gu.page_at(nm),
                self.page_at(name@) == gu.page_at(name@),
                forall|nm: Seq<char>|
                    !gu.spec_page_exists(nm) && target_seq(links@.take(i as int)).contains(nm)
                        ==> ((#[trigger] self.page_at(nm)).name@ == nm && self.page_at(
                        nm,
                    ).metadata@.len() == 0 && self.page_at(nm).file_path@ == nm + ".md"@
                        && self.page_at(nm).last_modified == 0),
        {
            let ghost s0 = *self;
            let ghost tv = links@[i as int].target@;
            proof {
                assert(target_seq(links@.take(i + 1)) =~= target_seq(links@.take(i as int)).push(
                    tv,
                ));
                lemma_dedup_push(target_seq(links@.take(i as int)), tv);
                lemma_dedup_contains(target_seq(links@.take(i as int)), tv);
            }
            let target_seen = contains_str(&new_out, links[i].target.as_str());
            if !target_seen {
                proof {
                    assert(!target_seq(links@.take(i as int)).contains(tv));
                }
                if !self.page_exists(links[i].target.as_str()) {
                    let mut stub_path = links[i].target.clone();
                    stub_path.append(".md");
                    let stub = PageNode::new(links[i].target.clone(), stub_path);
                    let _stub_had = self.add_page(stub);
                }
                let ghost s1 = *self;
                proof {
                    // after the optional stub, the target exists and
                    // everything else is as at the iteration's start
                    assert(s1.wf());
                    assert(s1.spec_page_exists(tv));
                    assert forall|nm: Seq<char>| #[trigger]
                        s1.spec_page_exists(nm) <==> s0.spec_page_exists(nm) || nm == tv by {}
                    assert forall|nm: Seq<char>|
                        nm != tv && s0.spec_page_exists(nm) implies #[trigger] s1.page_at(nm)
                        == s0.page_at(nm) by {}
                    if !s0.spec_page_exists(tv) {
                        assert(s1.page_at(tv).name@ == tv);
                        assert(s1.page_at(tv).metadata@.len() == 0);
                        assert(s1.page_at(tv).file_path@ == tv + ".md"@);
                        assert(s1.page_at(tv).last_modified == 0);
                    }
                    assert(s1.links_view() == s0.links_view());
                }
                let wl = match &links[i].display_text {
                    Some(text) => WikiLink::with_display_text(text.clone()),
                    None => WikiLink::new(),
                };
                proof {
                    assert(!s1.spec_has_link(name@, tv)) by {
                        if s1.spec_has_link(name@, tv) {
                            let j = choose|j: int|
                                0 <= j < s1.links_view().len() && (
                                #[trigger] s1.links_view()[j]).from@ == name@
                                    && s1.links_view()[j].to@ == tv;
                            assert(s1.links_view()[j] == s0.links_view()[j]);
                            if j >= base.len() {
                                let k = j - base.len();
                                assert(s0.links_view()[base.len() + k].to@ == new_out@[k]@);
                                assert(new_out.deep_view()[k] == new_out@[k]@);
                                assert(new_out.deep_view().contains(tv));
                            } else {
                                assert(base[j].from@ != name@);
                            }
                        }
                    }
                    assert(s1.spec_page_exists(name@)) by {
                        assert(s0.spec_page_exists(name@));
                    }
                }
                let ok = self.add_link(name, links[i].target.as_str(), wl);
                proof {
                    assert(ok);
                    let e = self.links_view().last();
                    assert(e.from@ == name@ && e.to@ == tv && e.data == wl);
                    assert(wl.display_text == links@[i as int].display_text);
                    assert(first_display(links@, tv) == links@[i as int].display_text) by {
                        assert forall|k: int|
                            0 <= k < i implies (#[trigger] links@[k]).target@
                            != links@[i as int].target@ by {
                            assert(target_seq(links@.take(i as int))[k] == links@[k].target@);
                        }
                        lemma_first_display_at(links@, i as int);
                    }
                    // pages carry through the link insertion
                    assert(self.pages_view() == s1.pages_view());
                    assert forall|nm: Seq<char>| #[trigger]
                        self.spec_page_exists(nm) <==> s1.spec_page_exists(nm) by {
                        if self.spec_page_exists(nm) {
                            Self::lemma_exists_same_pages(*self, s1, nm);
                        }
                        if s1.spec_page_exists(nm) {
                            Self::lemma_exists_same_pages(s1, *self, nm);
                        }
                    }
                    assert forall|nm: Seq<char>|
                        s1.spec_page_exists(nm) implies #[trigger] self.page_at(nm)
                        == s1.page_at(nm) by {
                        Self::lemma_same_pages_page_at(s1, *self, nm);
                    }
                }
                new_out.push(links[i].target.clone());
                proof {
                    assert(new_out@.last()@ == tv);
                    assert forall|k: int|
                        0 <= k < new_out@.len() implies #[trigger] new_out.deep_view()[k]
                        == new_out@[k]@ by {}
                    assert(new_out.deep_view() =~= dedup_first(
                        target_seq(links@.take(i as int)),
                    ).push(tv));
                    assert(new_out.deep_view() == dedup_first(target_seq(links@.take(i + 1))));
                    assert forall|nm: Seq<char>| #[trigger]
                        self.spec_page_exists(nm) <==> gu.spec_page_exists(nm) || target_seq(
                        links@.take(i + 1),
                    ).contains(nm) by {
                        if target_seq(links@.take(i + 1)).contains(nm) {
                            let k = choose|k: int|
                                0 <= k < target_seq(links@.take(i + 1)).len()
                                    && #[trigger] target_seq(links@.take(i + 1))[k] == nm;
                            if k < i {
                                assert(target_seq(links@.take(i as int))[k] == nm);
                            } else {
                                assert(nm == tv);
                            }
                        }
                        if target_seq(links@.take(i as int)).contains(nm) {
                            let k = choose|k: int|
                                0 <= k < target_seq(links@.take(i as int)).len()
                                    && #[trigger] target_seq(links@.take(i as int))[k] == nm;
                            assert(target_seq(links@.take(i + 1))[k] == nm);
                        }
                        if nm == tv {
                            assert(target_seq(links@.take(i + 1))[i as int] == nm);
                        }
                    }
                    // attributes: prior stubs and store pages untouched,
                    // the fresh stub as created
                    assert forall|nm: Seq<char>|
                        nm != name@ && gu.spec_page_exists(nm) implies #[trigger] self.page_at(
                        nm,
                    ) == gu.page_at(nm) by {
                        assert(s0.page_at(nm) == gu.page_at(nm));
                        assert(s0.spec_page_exists(nm));
                        assert(nm != tv ==> s1.page_at(nm) == s0.page_at(nm));
                        assert(nm == tv ==> s1.page_at(nm) == s0.page_at(nm)) by {
                            if nm == tv {
                                assert(s0.spec_page_exists(tv));
                            }
                        }
                        assert(self.page_at(nm) == s1.page_at(nm));
                    }
                    assert(self.page_at(name@) == gu.page_at(name@)) by {
                        assert(s0.spec_page_exists(name@));
                        assert(name@ != tv ==> s1.page_at(name@) == s0.page_at(name@));
                        if name@ == tv {
                            assert(s0.spec_page_exists(tv));
                        }
                    }
                    assert forall|nm: Seq<char>|
                        !gu.spec_page_exists(nm) && target_seq(links@.take(i + 1)).contains(
                            nm,
                        ) implies ((#[trigger] self.page_at(nm)).name@ == nm && self.page_at(
                        nm,
                    ).metadata@.len() == 0 && self.page_at(nm).file_path@ == nm + ".md"@
                        && self.page_at(nm).last_modified == 0) by {
                        let k = choose|k: int|
                            0 <= k < target_seq(links@.take(i + 1)).len()
                                && #[trigger] target_seq(links@.take(i + 1))[k] == nm;
                        if k < i {
                            assert(target_seq(links@.take(i as int))[k] == nm);
                            assert(s0.page_at(nm).name@ == nm && s0.page_at(nm).metadata@.len()
                                == 0 && s0.page_at(nm).file_path@ == nm + ".md"@ && s0.page_at(
                                nm,
                            ).last_modified == 0);
                            assert(s0.spec_page_exists(nm));
                            assert(nm != tv);
                            assert(s1.page_at(nm) == s0.page_at(nm));
                            assert(self.page_at(nm) == s1.page_at(nm));
                        } else {
                            assert(nm == tv);
                            assert(!s0.spec_page_exists(tv));
                            assert(self.page_at(nm) == s1.page_at(nm));
                        }
                    }
                }
            } else {
                proof {
                    assert(new_out.deep_view().contains(tv));
                    assert(dedup_first(target_seq(links@.take(i + 1))) == dedup_first(
                        target_seq(links@.take(i as int)),
                    ));
                    assert forall|nm: Seq<char>|
                        target_seq(links@.take(i + 1)).contains(nm) implies target_seq(
                        links@.take(i as int),
                    ).contains(nm) || nm == tv by {
                        let k = choose|k: int|
                            0 <= k < target_seq(links@.take(i + 1)).len() && #[trigger] target_seq(
                                links@.take(i + 1),
                            )[k] == nm;
                        if k < i {
                            assert(target_seq(links@.take(i as int))[k] == nm);
                        }
                    }
                    assert(target_seq(links@.take(i as int)).contains(tv));
                    assert forall|nm: Seq<char>|
                        target_seq(links@.take(i as int)).contains(nm) implies target_seq(
                        links@.take(i + 1),
                    ).contains(nm) by {
                        let k = choose|k: int|
                            0 <= k < target_seq(links@.take(i as int)).len() && #[trigger] target_seq(
                                links@.take(i as int),
                            )[k] == nm;
                        assert(target_seq(links@.take(i + 1))[k] == nm);
                    }
                }
            }
        }
        proof {
            assert(links@.take(n as int) =~= links@);
            assert(new_out.deep_view() == dedup_first(target_seq(links@)));
        }
        let events = diff_events(name, &old_out, &new_out);
        proof {
            let g0 = *old(self);
            // the final link sequence splits into the untouched base and
            // the fresh outgoing edges
            let news = Seq::new(
                new_out@.len(),
                |k: int| self.links_view()[base.len() + k],
            );
            assert(self.links_view() =~= base + news);
            assert forall|k: int| 0 <= k < news.len() implies edge_from_is(name@)(
                #[trigger] news[k],
            ) by {
                assert(news[k] == self.links_view()[base.len() + k]);
            }
            lemma_filter_all_false(base, edge_from_is(name@));
            lemma_filter_all_true(news, edge_from_is(name@));
            Seq::filter_distributes_over_add(base, news, edge_from_is(name@));
            assert(self.links_view().filter(edge_from_is(name@)) == news);
            assert(self.outgoing_seq(name@) =~= new_out.deep_view());
            // outgoing membership ties targets to links
            assert forall|t: Seq<char>| #[trigger]
                self.spec_has_link(name@, t) <==> target_seq(links@).contains(t) by {
                self.lemma_outgoing_membership(name@, t);
                lemma_dedup_contains(target_seq(links@), t);
            }
            // links of other pages are untouched
            assert forall|f: Seq<char>, t: Seq<char>|
                f != name@ implies (#[trigger] self.spec_has_link(f, t) <==> g0.spec_has_link(
                f,
                t,
            )) by {
                if self.spec_has_link(f, t) {
                    let j = choose|j: int|
                        0 <= j < self.links_view().len() && (
                        #[trigger] self.links_view()[j]).from@ == f && self.links_view()[j].to@
                            == t;
                    assert(j < base.len());
                    let k = lemma_filter_element_index(
                        g1.links_view(),
                        edge_not_from(name@),
                        j,
                    );
                    assert(g0.links_view()[k].from@ == f && g0.links_view()[k].to@ == t);
                }
                if g0.spec_has_link(f, t) {
                    let k = choose|k: int|
                        0 <= k < g0.links_view().len() && (#[trigger] g0.links_view()[k]).from@
                            == f && g0.links_view()[k].to@ == t;
                    g1.links_view().lemma_filter_contains(edge_not_from(name@), k);
                    let e = g0.links_view()[k];
                    let j = choose|j: int| 0 <= j < base.len() && base[j] == e;
                    assert(self.links_view()[j] == e);
                }
            }
            // the stored edge data comes from each target's first
            // occurrence
            assert forall|t: Seq<char>|
                target_seq(links@).contains(t) implies (#[trigger] self.link_at(
                name@,
                t,
            )).data.display_text == first_display(links@, t) by {
                assert(self.spec_has_link(name@, t));
                self.lemma_link_index(name@, t);
                lemma_dedup_contains(target_seq(links@), t);
                assert(new_out.deep_view().contains(t));
                let k = choose|k: int|
                    0 <= k < new_out.deep_view().len() && #[trigger] new_out.deep_view()[k] == t;
                assert(new_out@[k]@ == t);
                let e = self.links_view()[base.len() + k];
                assert(e.from@ == name@ && e.to@ == t);
                assert(base.len() + k == self.link_index(name@, t));
            }
            // the page set and attributes
            assert forall|nm: Seq<char>| #[trigger]
                self.spec_page_exists(nm) <==> g0.spec_page_exists(nm) || nm == name@
                    || target_seq(links@).contains(nm) by {
                if g0.spec_page_exists(nm) || nm == name@ {
                    assert(g1.spec_page_exists(nm));
                    Self::lemma_same_pages_page_at(g1, gu, nm);
                }
                if gu.spec_page_exists(nm) {
                    Self::lemma_exists_same_pages(gu, g1, nm);
                }
            }
            assert forall|nm: Seq<char>|
                nm != name@ && g0.spec_page_exists(nm) implies #[trigger] self.page_at(nm)
                == g0.page_at(nm) by {
                assert(g1.spec_page_exists(nm));
                Self::lemma_same_pages_page_at(g1, gu, nm);
            }
            assert forall|nm: Seq<char>|
                !g0.spec_page_exists(nm) && nm != name@ && target_seq(links@).contains(
                    nm,
                ) implies ((#[trigger] self.page_at(nm)).name@ == nm && self.page_at(
                nm,
            ).metadata@.len() == 0 && self.page_at(nm).file_path@ == nm + ".md"@
                && self.page_at(nm).last_modified == 0) by {
                assert(!gu.spec_page_exists(nm)) by {
                    if gu.spec_page_exists(nm) {
                        Self::lemma_exists_same_pages(gu, g1, nm);
                    }
                }
            }
            assert(gu.page_at(name@) == g1.page_at(name@)) by {
                Self::lemma_same_pages_page_at(g1, gu, name@);
            }
            assert(self.page_at(name@).name@ == name@);
            // the old outgoing targets seen by the caller
            assert(old_out.deep_view() == g0.outgoing_seq(name@));
        }
        events
    }

    /// The pages accepted by every filter in the list, in store order;
    /// an empty filter list returns every page.
    pub fn query(&self, filters: &[Filter]) -> (r: Vec<&PageNode>)
        ensures
            r@.len() == self.pages_view().filter(matches_pred(filters@, *self)).len(),
            forall|k: int|
                0 <= k < r@.len() ==> *(#[trigger] r@[k]) == self.pages_view().filter(
                    matches_pred(filters@, *self),
                )[k],
    {
        let ghost pred = matches_pred(filters@, *self);
        let mut r: Vec<&PageNode> = Vec::new();
        proof {
            assert(self.pages_view().take(0).filter(pred) =~= Seq::<PageNode>::empty());
        }
        let n = self.pages.len();
        for i in 0..n
            invariant
                n == self.pages.len(),
                pred == matches_pred(filters@, *self),
                r@.len() == self.pages_view().take(i as int).filter(pred).len(),
                forall|k: int|
                    0 <= k < r@.len() ==> *(#[trigger] r@[k]) == self.pages_view().take(
                        i as int,
                    ).filter(pred)[k],
        {
            proof {
                assert(self.pages_view().take(i + 1) =~= self.pages_view().take(i as int).push(
                    self.pages_view()[i as int],
                ));
                self.pages_view().take(i as int).lemma_filter_push(
                    self.pages_view()[i as int],
                    pred,
                );
            }
            if matches_all_filters(&self.pages[i], filters, self) {
                r.push(&self.pages[i]);
                proof {
                    assert(pred(self.pages_view()[i as int]));
                }
            } else {
                proof {
                    assert(!pred(self.pages_view()[i as int]));
                }
            }
        }
        proof {
            assert(self.pages_view().take(n as int) =~= self.pages_view());
        }
        r
    }

    /// Filter pages and project the result to the requested columns:
    /// `name` and `file_path` always resolve; any other column
    /// resolves to the page's metadata when present, else is absent
    /// from that row.
    pub fn metatable(&self, filters: &[Filter], columns: &[String]) -> (r: MetaTableResult)
        ensures
            r.columns@ == columns@,
            r.rows@.len() == self.pages_view().filter(matches_pred(filters@, *self)).len(),
            forall|k: int|
                0 <= k < r.rows@.len() ==> ({
                    let q = self.pages_view().filter(matches_pred(filters@, *self));
                    (#[trigger] r.rows@[k]).page_name@ == q[k].name@ && r.rows@[k].values@
                        == row_values(columns@, q[k])
                }),
    {
        let ghost q = self.pages_view().filter(matches_pred(filters@, *self));
        let matching = self.query(filters);
        let mut rows: Vec<MetaTableRow> = Vec::new();
        let rn = matching.len();
        for idx in 0..rn
            invariant
                rn == matching@.len(),
                rn == q.len(),
                q == self.pages_view().filter(matches_pred(filters@, *self)),
                forall|k: int| 0 <= k < rn ==> *(#[trigger] matching@[k]) == q[k],
                rows@.len() == idx,
                forall|k: int|
                    0 <= k < idx ==> (#[trigger] rows@[k]).page_name@ == q[k].name@
                        && rows@[k].values@ == row_values(columns@, q[k]),
        {
            let page: &PageNode = matching[idx];
            let mut vals = Metadata::new();
            let m = columns.len();
            proof {
                assert(row_values(columns@.take(0), *page) =~= Seq::<
                    (Seq<char>, Seq<Seq<char>>),
                >::empty());
            }
            for j in 0..m
                invariant
                    m == columns@.len(),
                    vals@ == row_values(columns@.take(j as int), *page),
            {
                proof {
                    assert(columns@.take(j + 1).drop_last() =~= columns@.take(j as int));
                    assert(columns@.take(j + 1).last() == columns@[j as int]);
                }
                let col = &columns[j];
                if str_eq(col.as_str(), "name") {
                    let mut one: Vec<String> = Vec::new();
                    one.push(page.name.clone());
                    proof {
                        assert(one.deep_view() =~= seq![page.name@]);
                    }
                    vals.push_entry(col.clone(), one);
                } else if str_eq(col.as_str(), "file_path") {
                    let mut one: Vec<String> = Vec::new();
                    one.push(page.file_path.clone());
                    proof {
                        assert(one.deep_view() =~= seq![page.file_path@]);
                    }
                    vals.push_entry(col.clone(), one);
                } else {
                    match page.metadata.get(col.as_str()) {
                        Some(v) => {
                            let c = clone_string_vec(v);
                            proof {
                                assert(c.deep_view() =~= v.deep_view());
                            }
                            vals.push_entry(col.clone(), c);
                        },
                        None => {},
                    }
                }
                proof {
                    assert(vals@ =~= row_values(columns@.take(j + 1), *page));
                }
            }
            proof {
                assert(columns@.take(m as int) =~= columns@);
            }
            rows.push(MetaTableRow { page_name: page.name.clone(), values: vals });
        }
        let mut owned_columns: Vec<String> = Vec::new();
        let cn = columns.len();
        for j in 0..cn
            invariant
                cn == columns@.len(),
                owned_columns@ == columns@.take(j as int),
        {
            owned_columns.push(columns[j].clone());
            proof {
                assert(columns@.take(j + 1) =~= columns@.take(j as int).push(
                    columns@[j as int],
                ));
            }
        }
        proof {
            assert(columns@.take(cn as int) =~= columns@);
        }
        MetaTableResult { columns: owned_columns, rows }
    }

    /// Insert the links of one scanned entry, materializing a stub
    /// page for each target not yet stored.
    fn insert_entry_links(&mut self, name: &str, links: &Vec<ParsedLink>)
        requires
            old(self).wf(),
            old(self).spec_page_exists(name@),
        ensures
            final(self).wf(),
            forall|n: Seq<char>|
                #[trigger] final(self).spec_page_exists(n) <==> old(self).spec_page_exists(n)
                    || target_seq(links@).contains(n),
            forall|n: Seq<char>|
                old(self).spec_page_exists(n) ==> #[trigger] final(self).page_at(n) == old(
                    self,
                ).page_at(n),
            forall|f: Seq<char>, t: Seq<char>|
                #[trigger] final(self).spec_has_link(f, t) <==> old(self).spec_has_link(f, t)
                    || (f == name@ && target_seq(links@).contains(t)),
            forall|n: Seq<char>|
                !old(self).spec_page_exists(n) && target_seq(links@).contains(n)
                    ==> ((#[trigger] final(self).page_at(n)).name@ == n && final(self).page_at(
                    n,
                ).metadata@.len() == 0 && final(self).page_at(n).file_path@ == n + ".md"@
                    && final(self).page_at(n).last_modified == 0),
    {
        let n = links.len();
        proof {
            assert(target_seq(links@.take(0)) =~= Seq::<Seq<char>>::empty());
        }
        for j in 0..n
            invariant
                n == links.len(),
                self.wf(),
                self.spec_page_exists(name@),
                forall|nm: Seq<char>|
                    #[trigger] self.spec_page_exists(nm) <==> old(self).spec_page_exists(nm)
                        || target_seq(links@.take(j as int)).contains(nm),
                forall|nm: Seq<char>|
                    old(self).spec_page_exists(nm) ==> #[trigger] self.page_at(nm) == old(
                        self,
                    ).page_at(nm),
                forall|f: Seq<char>, t: Seq<char>|
                    #[trigger] self.spec_has_link(f, t) <==> old(self).spec_has_link(f, t) || (
                    f == name@ && target_seq(links@.take(j as int)).contains(t)),
                forall|nm: Seq<char>|
                    !old(self).spec_page_exists(nm) && target_seq(links@.take(j as int)).contains(
                        nm,
                    ) ==> ((#[trigger] self.page_at(nm)).name@ == nm && self.page_at(
                        nm,
                    ).metadata@.len() == 0 && self.page_at(nm).file_path@ == nm + ".md"@
                        && self.page_at(nm).last_modified == 0),
        {
            let ghost s0 = *self;
            let ghost tv = links@[j as int].target@;
            proof {
                assert(target_seq(links@.take(j + 1)) =~= target_seq(links@.take(j as int)).push(
                    tv,
                ));
                assert forall|nm: Seq<char>|
                    target_seq(links@.take(j + 1)).contains(nm) implies target_seq(
                    links@.take(j as int),
                ).contains(nm) || nm == tv by {
                    let k = choose|k: int|
                        0 <= k < target_seq(links@.take(j + 1)).len() && #[trigger] target_seq(
                            links@.take(j + 1),
                        )[k] == nm;
                    if k < j {
                        assert(target_seq(links@.take(j as int))[k] == nm);
                    }
                }
                assert forall|nm: Seq<char>|
                    target_seq(links@.take(j as int)).contains(nm) implies target_seq(
                    links@.take(j + 1),
                ).contains(nm) by {
                    let k = choose|k: int|
                        0 <= k < target_seq(links@.take(j as int)).len() && #[trigger] target_seq(
                            links@.take(j as int),
                        )[k] == nm;
                    assert(target_seq(links@.take(j + 1))[k] == nm);
                }
                assert(target_seq(links@.take(j + 1))[j as int] == tv);
            }
            if !self.page_exists(links[j].target.as_str()) {
                let mut stub_path = links[j].target.clone();
                stub_path.append(".md");
                let stub = PageNode::new(links[j].target.clone(), stub_path);
                let _stub_had = self.add_page(stub);
            }
            let ghost s1 = *self;
            let wl = match &links[j].display_text {
                Some(text) => WikiLink::with_display_text(text.clone()),
                None => WikiLink::new(),
            };
            let ok = self.add_link(name, links[j].target.as_str(), wl);
            proof {
                assert(ok);
                assert(self.pages_view() == s1.pages_view());
                assert forall|nm: Seq<char>| #[trigger]
                    self.spec_page_exists(nm) <==> s1.spec_page_exists(nm) by {
                    if self.spec_page_exists(nm) {
                        Self::lemma_exists_same_pages(*self, s1, nm);
                    }
                    if s1.spec_page_exists(nm) {
                        Self::lemma_exists_same_pages(s1, *self, nm);
                    }
                }
                assert forall|nm: Seq<char>|
                    s1.spec_page_exists(nm) implies #[trigger] self.page_at(nm) == s1.page_at(
                    nm,
                ) by {
                    Self::lemma_same_pages_page_at(s1, *self, nm);
                }
                assert forall|f: Seq<char>, t: Seq<char>| #[trigger]
                    self.spec_has_link(f, t) <==> s0.spec_has_link(f, t) || (f == name@ && t
                        == tv) by {
                    if self.spec_has_link(f, t) {
                        let k = choose|k: int|
                            0 <= k < self.links_view().len() && (
                            #[trigger] self.links_view()[k]).from@ == f
                                && self.links_view()[k].to@ == t;
                        if k < s0.links_view().len() {
                            assert(s0.links_view()[k].from@ == f && s0.links_view()[k].to@
                                == t);
                        }
                    }
                    if s0.spec_has_link(f, t) {
                        let k = choose|k: int|
                            0 <= k < s0.links_view().len() && (#[trigger] s0.links_view()[
                            k]).from@ == f && s0.links_view()[k].to@ == t;
                        assert(self.links_view()[k].from@ == f && self.links_view()[k].to@
                            == t);
                    }
                    if f == name@ && t == tv {
                        assert(self.spec_has_link(f, t)) by {
                            if s0.spec_has_link(name@, tv) {
                                let k = choose|k: int|
                                    0 <= k < s0.links_view().len() && (
                                    #[trigger] s0.links_view()[k]).from@ == name@
                                        && s0.links_view()[k].to@ == tv;
                                assert(self.links_view()[k].from@ == name@
                                    && self.links_view()[k].to@ == tv);
                            } else {
                                assert(self.links_view().last().from@ == name@
                                    && self.links_view().last().to@ == tv);
                            }
                        }
                    }
                }
            }
        }
        proof {
            assert(links@.take(n as int) =~= links@);
        }
    }

    /// Clear the graph and rebuild it from scanned entries: every
    /// entry becomes a page (the last entry with a name wins its
    /// attributes), then every parsed link becomes an edge, with a
    /// stub page for each target no entry names.
    pub fn build_from_entries(&mut self, entries: &Vec<PageEntry>)
        ensures
            final(self).wf(),
            forall|n: Seq<char>|
                #[trigger] final(self).spec_page_exists(n) <==> entries_has_name(entries@, n)
                    || entries_has_target(entries@, n),
            forall|n: Seq<char>|
                entries_has_name(entries@, n) ==> ({
                    let e = last_entry_for(entries@, n);
                    let p = #[trigger] final(self).page_at(n);
                    p.name@ == n && p.file_path == e.file_path && p.metadata@ == e.metadata@
                        && p.last_modified == e.last_modified
                }),
            forall|f: Seq<char>, t: Seq<char>|
                #[trigger] final(self).spec_has_link(f, t) <==> entries_link(entries@, f, t),
            forall|n: Seq<char>|
                !entries_has_name(entries@, n) && entries_has_target(entries@, n) ==> ((
                #[trigger] final(self).page_at(n)).name@ == n && final(self).page_at(
                    n,
                ).metadata@.len() == 0 && final(self).page_at(n).file_path@ == n + ".md"@
                    && final(self).page_at(n).last_modified == 0),
    {
        self.clear();
        let n = entries.len();
        proof {
            assert forall|nm: Seq<char>| !entries_has_name(entries@.take(0), nm) by {}
        }
        for i in 0..n
            invariant
                n == entries.len(),
                self.wf(),
                self.links_view() == Seq::<LinkEdge>::empty(),
                forall|nm: Seq<char>|
                    #[trigger] self.spec_page_exists(nm) <==> entries_has_name(
                        entries@.take(i as int),
                        nm,
                    ),
                forall|nm: Seq<char>|
                    entries_has_name(entries@.take(i as int), nm) ==> ({
                        let e = last_entry_for(entries@.take(i as int), nm);
                        let p = #[trigger] self.page_at(nm);
                        p.name@ == nm && p.file_path == e.file_path && p.metadata@
                            == e.metadata@ && p.last_modified == e.last_modified
                    }),
        {
            let ghost ev = entries@[i as int];
            proof {
                assert(entries@.take(i + 1).drop_last() =~= entries@.take(i as int));
                assert(entries@.take(i + 1).last() == ev);
                assert forall|nm: Seq<char>|
                    entries_has_name(entries@.take(i + 1), nm) implies entries_has_name(
                    entries@.take(i as int),
                    nm,
                ) || nm == ev.name@ by {
                    let k = choose|k: int|
                        0 <= k < entries@.take(i + 1).len() && (#[trigger] entries@.take(
                            i + 1,
                        )[k]).name@ == nm;
                    if k < i {
                        assert(entries@.take(i as int)[k].name@ == nm);
                    }
                }
                assert forall|nm: Seq<char>|
                    entries_has_name(entries@.take(i as int), nm) implies entries_has_name(
                    entries@.take(i + 1),
                    nm,
                ) by {
                    let k = choose|k: int|
                        0 <= k < entries@.take(i as int).len() && (#[trigger] entries@.take(
                            i as int,
                        )[k]).name@ == nm;
                    assert(entries@.take(i + 1)[k].name@ == nm);
                }
                assert((#[trigger] entries@.take(i + 1)[i as int]).name@ == ev.name@);
            }
            let page = PageNode::with_metadata(
                entries[i].name.clone(),
                entries[i].file_path.clone(),
                entries[i].metadata.clone(),
                entries[i].last_modified,
            );
            let _had = self.add_page(page);
        }
        proof {
            assert(entries@.take(n as int) =~= entries@);
        }
        let ghost gnamed = *self;
        proof {
            assert forall|ft: Seq<char>| !entries_has_target(entries@.take(0), ft) by {}
            assert forall|f: Seq<char>, t: Seq<char>| !entries_link(entries@.take(0), f, t) by {}
        }
        for i in 0..n
            invariant
                n == entries.len(),
                self.wf(),
                gnamed.wf(),
                forall|nm: Seq<char>|
                    #[trigger] gnamed.spec_page_exists(nm) <==> entries_has_name(entries@, nm),
                forall|nm: Seq<char>|
                    #[trigger] self.spec_page_exists(nm) <==> entries_has_name(entries@, nm)
                        || entries_has_target(entries@.take(i as int), nm),
                forall|nm: Seq<char>|
                    gnamed.spec_page_exists(nm) ==> #[trigger] self.page_at(nm)
                        == gnamed.page_at(nm),
                forall|nm: Seq<char>|
                    entries_has_name(entries@, nm) ==> ({
                        let e = last_entry_for(entries@, nm);
                        let p = #[trigger] gnamed.page_at(nm);
                        p.name@ == nm && p.file_path == e.file_path && p.metadata@
                            == e.metadata@ && p.last_modified == e.last_modified
                    }),
                forall|f: Seq<char>, t: Seq<char>|
                    #[trigger] self.spec_has_link(f, t) <==> entries_link(
                        entries@.take(i as int),
                        f,
                        t,
                    ),
                forall|nm: Seq<char>|
                    !entries_has_name(entries@, nm) && entries_has_target(
                        entries@.take(i as int),
                        nm,
                    ) ==> ((#[trigger] self.page_at(nm)).name@ == nm && self.page_at(
                        nm,
                    ).metadata@.len() == 0 && self.page_at(nm).file_path@ == nm + ".md"@
                        && self.page_at(nm).last_modified == 0),
        {
            let ghost ev = entries@[i as int];
            let ghost pre = *self;
            proof {
                assert(entries_has_name(entries@, ev.name@)) by {
                    assert((#[trigger] entries@[i as int]).name@ == ev.name@);
                }
            }
            self.insert_entry_links(entries[i].name.as_str(), &entries[i].links);
            proof {
                assert forall|nm: Seq<char>|
                    entries_has_target(entries@.take(i + 1), nm) implies entries_has_target(
                    entries@.take(i as int),
                    nm,
                ) || target_seq(ev.links@).contains(nm) by {
                    let k = choose|k: int|
                        0 <= k < entries@.take(i + 1).len() && target_seq(
                            (#[trigger] entries@.take(i + 1)[k]).links@,
                        ).contains(nm);
                    if k < i {
                        assert(target_seq(
                            (#[trigger] entries@.take(i as int)[k]).links@,
                        ).contains(nm));
                    } else {
                        assert(entries@.take(i + 1)[k] == ev);
                    }
                }
                assert forall|nm: Seq<char>|
                    entries_has_target(entries@.take(i as int), nm) implies entries_has_target(
                    entries@.take(i + 1),
                    nm,
                ) by {
                    let k = choose|k: int|
                        0 <= k < entries@.take(i as int).len() && target_seq(
                            (#[trigger] entries@.take(i as int)[k]).links@,
                        ).contains(nm);
                    assert(target_seq(
                        (#[trigger] entries@.take(i + 1)[k]).links@,
                    ).contains(nm));
                }
                assert forall|nm: Seq<char>|
                    target_seq(ev.links@).contains(nm) implies entries_has_target(
                    entries@.take(i + 1),
                    nm,
                ) by {
                    assert(target_seq((#[trigger] entries@.take(i + 1)[i as int]).links@)
                        .contains(nm));
                }
                assert forall|f: Seq<char>, t: Seq<char>|
                    entries_link(entries@.take(i + 1), f, t) implies entries_link(
                    entries@.take(i as int),
                    f,
                    t,
                ) || (f == ev.name@ && target_seq(ev.links@).contains(t)) by {
                    let k = choose|k: int|
                        0 <= k < entries@.take(i + 1).len() && (#[trigger] entries@.take(
                            i + 1,
                        )[k]).name@ == f && target_seq(entries@.take(i + 1)[k].links@).contains(
                            t,
                        );
                    if k < i {
                        assert((#[trigger] entries@.take(i as int)[k]).name@ == f
                            && target_seq(entries@.take(i as int)[k].links@).contains(t));
                    } else {
                        assert(entries@.take(i + 1)[k] == ev);
                    }
                }
                assert forall|f: Seq<char>, t: Seq<char>|
                    entries_link(entries@.take(i as int), f, t) implies entries_link(
                    entries@.take(i + 1),
                    f,
                    t,
                ) by {
                    let k = choose|k: int|
                        0 <= k < entries@.take(i as int).len() && (#[trigger] entries@.take(
                            i as int,
                        )[k]).name@ == f && target_seq(entries@.take(i as int)[k].links@)
                            .contains(t);
                    assert((#[trigger] entries@.take(i + 1)[k]).name@ == f && target_seq(
                        entries@.take(i + 1)[k].links@,
                    ).contains(t));
                }
                assert forall|t: Seq<char>|
                    #[trigger] target_seq(ev.links@).contains(t) implies entries_link(
                    entries@.take(i + 1),
                    ev.name@,
                    t,
                ) by {
                    assert((#[trigger] entries@.take(i + 1)[i as int]).name@ == ev.name@
                        && target_seq(entries@.take(i + 1)[i as int].links@).contains(t));
                }
            }
        }
        proof {
            assert(entries@.take(n as int) =~= entries@);
        }
    }

    /// Remove every page and every link.
    pub fn clear(&mut self)
        ensures
            final(self).wf(),
            final(self).pages_view() == Seq::<PageNode>::empty(),
            final(self).links_view() == Seq::<LinkEdge>::empty(),
    {
        self.pages.clear();
        self.links.clear();
        proof {
            assert(self.pages_view() =~= Seq::<PageNode>::empty());
            assert(self.links_view() =~= Seq::<LinkEdge>::empty());
        }
    }
}

impl Default for WikiGraph {
    /// The default store is empty.
    fn default() -> (r: Self)
        ensures
            r.wf(),
            r.pages_view() == Seq::<PageNode>::empty(),
            r.links_view() == Seq::<LinkEdge>::empty(),
    {
        Self::new()
    }
}

} // verus!
