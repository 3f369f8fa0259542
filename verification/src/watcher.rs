//! The watcher's decision core: which observed paths are eligible,
//! how a debounced batch becomes page actions, and how one action
//! changes the graph and what events it emits.
//!
//! Reading the filesystem, debouncing raw notifications and running
//! the background thread are left to the code around the library; the
//! rules they follow live here.

use vstd::prelude::*;
use crate::events::{EventV, GraphEvent};
use crate::graph::{WikiGraph, dedup_first, link_diff_events, removed_event_of, target_seq};
use crate::models::contains_str;
use crate::parser::ParsedPage;

verus! {

/// The last index at which a character occurs.
pub open spec fn rfind_char(s: Seq<char>, c: char) -> Option<int>
    decreases s.len(),
{
    if s.len() == 0 {
        None
    } else if s.last() == c {
        Some(s.len() - 1)
    } else {
        rfind_char(s.drop_last(), c)
    }
}

/// The file name of a path: everything past the last separator.
pub open spec fn last_component(p: Seq<char>) -> Seq<char> {
    match rfind_char(p, '/') {
        Some(k) => p.skip(k + 1),
        None => p,
    }
}

/// The page name an eligible path yields: the file name without its
/// `.md` extension.  A file with another extension, with no
/// extension, or whose name is all extension is not eligible.
pub open spec fn md_stem(path: Seq<char>) -> Option<Seq<char>> {
    let f = last_component(path);
    match rfind_char(f, '.') {
        Some(k) => if k > 0 && f.skip(k + 1) == "md"@ {
            Some(f.take(k))
        } else {
            None
        },
        None => None,
    }
}

/// A character missing from a suffix was last seen earlier.
proof fn lemma_rfind_char_at(s: Seq<char>, c: char, k: int)
    requires
        0 <= k < s.len(),
        s[k] == c,
        forall|j: int| k < j < s.len() ==> #[trigger] s[j] != c,
    ensures
        rfind_char(s, c) == Some(k),
    decreases s.len(),
{
    if k < s.len() - 1 {
        lemma_rfind_char_at(s.drop_last(), c, k);
    }
}

/// A character that occurs nowhere is not found.
proof fn lemma_rfind_char_none(s: Seq<char>, c: char)
    requires
        forall|j: int| 0 <= j < s.len() ==> #[trigger] s[j] != c,
    ensures
        rfind_char(s, c) is None,
    decreases s.len(),
{
    if s.len() > 0 {
        lemma_rfind_char_none(s.drop_last(), c);
    }
}

/// The last index at which a character occurs in the string, scanning
/// from the back.
fn rfind_in(path: &str, c: char) -> (r: Option<usize>)
    ensures
        match r {
            Some(k) => k < path@.len() && rfind_char(path@, c) == Some(k as int),
            None => rfind_char(path@, c) is None,
        },
{
    let len = path.unicode_len();
    let mut i = len;
    while i > 0
        invariant
            len == path@.len(),
            0 <= i <= len,
            forall|j: int| i <= j < len ==> #[trigger] path@[j] != c,
        decreases i,
    {
        i = i - 1;
        if path.get_char(i) == c {
            proof {
                lemma_rfind_char_at(path@, c, i as int);
            }
            return Some(i);
        }
    }
    proof {
        lemma_rfind_char_none(path@, c);
    }
    None
}

/// The page name of an eligible `.md` path; nothing for any other
/// path.
pub fn md_page_name(path: &str) -> (r: Option<String>)
    ensures
        r.deep_view() == md_stem(path@),
{
    let len = path.unicode_len();
    let start = match rfind_in(path, '/') {
        Some(k) => k + 1,
        None => 0,
    };
    let fname = path.substring_char(start, len);
    proof {
        assert(fname@ =~= last_component(path@));
    }
    let flen = fname.unicode_len();
    match rfind_in(fname, '.') {
        Some(k) => {
            if k > 0 {
                let ext = fname.substring_char(k + 1, flen);
                proof {
                    assert(ext@ =~= last_component(path@).skip(k + 1));
                }
                if crate::models::str_eq(ext, "md") {
                    let stem = fname.substring_char(0, k);
                    proof {
                        assert(stem@ =~= last_component(path@).take(k as int));
                    }
                    Some(stem.to_owned())
                } else {
                    None
                }
            } else {
                None
            }
        },
        None => None,
    }
}

/// One observed filesystem change, as the watcher sees it at
/// processing time: the path relative to the watched directory and
/// whether the file exists on disk now.
#[derive(Clone, Debug)]
pub struct PathChange {
    /// The changed path, relative to the watched directory.
    pub path: String,

    /// Whether the file exists at processing time; a write followed by
    /// a delete before processing counts as deleted.
    pub exists: bool,
}

impl View for PathChange {
    type V = (Seq<char>, bool);

    open spec fn view(&self) -> (Seq<char>, bool) {
        (self.path@, self.exists)
    }
}

impl DeepView for PathChange {
    type V = (Seq<char>, bool);

    open spec fn deep_view(&self) -> (Seq<char>, bool) {
        self.view()
    }
}

/// What the watcher decides to do for one eligible changed path.
#[derive(Clone, Debug)]
pub enum PageAction {
    /// Read and re-parse the file, then update the page.
    Upsert { name: String, path: String },
    /// Remove the page.
    Delete { name: String },
}

/// Spec-level shape of a page action.
pub enum ActionV {
    /// Read and re-parse the file, then update the page.
    Upsert { name: Seq<char>, path: Seq<char> },
    /// Remove the page.
    Delete { name: Seq<char> },
}

impl View for PageAction {
    type V = ActionV;

    open spec fn view(&self) -> ActionV {
        match self {
            PageAction::Upsert { name, path } => ActionV::Upsert { name: name@, path: path@ },
            PageAction::Delete { name } => ActionV::Delete { name: name@ },
        }
    }
}

impl DeepView for PageAction {
    type V = ActionV;

    open spec fn deep_view(&self) -> ActionV {
        self.view()
    }
}

/// The actions a batch of changes yields, given the eligible paths
/// already handled: one action per eligible path not yet seen, in
/// batch order; ineligible paths and repeats yield nothing.
pub open spec fn plan_from(changes: Seq<(Seq<char>, bool)>, seen: Seq<Seq<char>>) -> Seq<ActionV>
    decreases changes.len(),
{
    if changes.len() == 0 {
        Seq::empty()
    } else {
        let c = changes[0];
        let rest = changes.drop_first();
        match md_stem(c.0) {
            Some(name) => if !seen.contains(c.0) {
                let act = if c.1 {
                    ActionV::Upsert { name, path: c.0 }
                } else {
                    ActionV::Delete { name }
                };
                seq![act] + plan_from(rest, seen.push(c.0))
            } else {
                plan_from(rest, seen)
            },
            None => plan_from(rest, seen),
        }
    }
}

/// The actions a batch of changes yields: one per eligible path,
/// de-duplicated by path within the batch, in batch order.
pub open spec fn plan_spec(changes: Seq<(Seq<char>, bool)>) -> Seq<ActionV> {
    plan_from(changes, Seq::empty())
}

/// The file watcher's decision core.
///
/// The surrounding runtime observes raw changes, debounces them and
/// checks what is on disk; these functions decide what each batch
/// means for the graph and which events it emits.
#[derive(Debug)]
pub struct FileWatcher;

impl FileWatcher {
    /// Turn one debounced batch into page actions: paths with an
    /// ineligible extension yield nothing, each path acts at most
    /// once per batch, and a path's action follows its on-disk
    /// existence at processing time.
    pub fn plan_changes(changes: &Vec<PathChange>) -> (r: Vec<PageAction>)
        ensures
            r.deep_view() == plan_spec(changes.deep_view()),
    {
        let mut out: Vec<PageAction> = Vec::new();
        let mut seen: Vec<String> = Vec::new();
        let n = changes.len();
        proof {
            assert(changes.deep_view().skip(0) =~= changes.deep_view());
            assert(seen.deep_view() =~= Seq::<Seq<char>>::empty());
            assert(out.deep_view() =~= Seq::<ActionV>::empty());
            assert(out.deep_view() + plan_from(changes.deep_view(), seen.deep_view())
                =~= plan_spec(changes.deep_view()));
        }
        for i in 0..n
            invariant
                n == changes@.len(),
                plan_spec(changes.deep_view()) == out.deep_view() + plan_from(
                    changes.deep_view().skip(i as int),
                    seen.deep_view(),
                ),
        {
            let ghost cdv = changes.deep_view();
            let ghost c = cdv[i as int];
            proof {
                assert(c == changes@[i as int]@);
                assert(cdv.skip(i as int)[0] == c);
                assert(cdv.skip(i as int).drop_first() =~= cdv.skip(i + 1));
            }
            let name = md_page_name(changes[i].path.as_str());
            match name {
                Some(page_name) => {
                    let ghost prevout = out.deep_view();
                    let ghost prevseen = seen.deep_view();
                    if !contains_str(&seen, changes[i].path.as_str()) {
                        let action = if changes[i].exists {
                            PageAction::Upsert {
                                name: page_name,
                                path: changes[i].path.clone(),
                            }
                        } else {
                            PageAction::Delete { name: page_name }
                        };
                        out.push(action);
                        seen.push(changes[i].path.clone());
                        proof {
                            assert(seen.deep_view() =~= prevseen.push(c.0));
                            assert(out.deep_view() =~= prevout.push(
                                if c.1 {
                                    ActionV::Upsert { name: md_stem(c.0)->0, path: c.0 }
                                } else {
                                    ActionV::Delete { name: md_stem(c.0)->0 }
                                },
                            ));
                            assert(plan_from(cdv.skip(i as int), prevseen) == seq![
                                out.deep_view().last(),
                            ] + plan_from(cdv.skip(i + 1), prevseen.push(c.0)));
                            assert(plan_spec(cdv) =~= out.deep_view() + plan_from(
                                cdv.skip(i + 1),
                                seen.deep_view(),
                            ));
                        }
                    } else {
                        proof {
                            assert(prevseen.contains(c.0));
                        }
                    }
                },
                None => {
                    proof {
                        assert(md_stem(c.0) is None);
                    }
                },
            }
        }
        proof {
            assert(changes.deep_view().skip(n as int) =~= Seq::<(Seq<char>, bool)>::empty());
        }
        out
    }

    /// Apply one created-or-updated file to the graph: re-scan the
    /// page and report the page event, then the link diff.
    ///
    /// The first event says whether the page was already stored; the
    /// rest are exactly the link diff of the update.
    pub fn apply_file_changed(
        graph: &mut WikiGraph,
        name: &str,
        file_path: String,
        parsed: ParsedPage,
        last_modified: u64,
    ) -> (r: Vec<GraphEvent>)
        requires
            old(graph).wf(),
        ensures
            final(graph).wf(),
            final(graph).spec_page_exists(name@),
            final(graph).page_at(name@).file_path == file_path,
            final(graph).page_at(name@).metadata == parsed.metadata,
            final(graph).page_at(name@).last_modified == last_modified,
            forall|n: Seq<char>|
                #[trigger] final(graph).spec_page_exists(n) <==> old(graph).spec_page_exists(n)
                    || n == name@ || target_seq(parsed.links@).contains(n),
            forall|n: Seq<char>|
                n != name@ && old(graph).spec_page_exists(n)
                    ==> #[trigger] final(graph).page_at(n) == old(graph).page_at(n),
            forall|f: Seq<char>, t: Seq<char>|
                f != name@ ==> (#[trigger] final(graph).spec_has_link(f, t) <==> old(
                    graph,
                ).spec_has_link(f, t)),
            final(graph).outgoing_seq(name@) == dedup_first(target_seq(parsed.links@)),
            r.deep_view().len() >= 1,
            r.deep_view()[0] == (if old(graph).spec_page_exists(name@) {
                EventV::PageUpdated { name: name@ }
            } else {
                EventV::PageCreated { name: name@ }
            }),
            r.deep_view().skip(1) == link_diff_events(
                name@,
                old(graph).outgoing_seq(name@),
                dedup_first(target_seq(parsed.links@)),
            ),
    {
        let existed = graph.page_exists(name);
        let link_events = graph.update_page(
            name,
            file_path,
            parsed.metadata,
            parsed.links,
            last_modified,
        );
        let mut events: Vec<GraphEvent> = Vec::new();
        if existed {
            events.push(GraphEvent::PageUpdated { name: name.to_owned() });
        } else {
            events.push(GraphEvent::PageCreated { name: name.to_owned() });
        }
        let ghost head = events.deep_view();
        let ghost linkpart = link_events.deep_view();
        let ghost lv = link_events@;
        let mut rest = link_events;
        events.append(&mut rest);
        proof {
            assert(events@.len() == 1 + lv.len());
            assert forall|k: int|
                0 <= k < events.deep_view().len() implies #[trigger] events.deep_view()[k] == (
            head + linkpart)[k] by {
                assert(events.deep_view()[k] == events@[k]@);
                if k >= 1 {
                    assert(events@[k] == lv[k - 1]);
                    assert(linkpart[k - 1] == lv[k - 1]@);
                }
            }
            assert(events.deep_view() =~= head + linkpart);
            assert(events.deep_view().skip(1) =~= linkpart);
        }
        events
    }

    /// Apply one deleted file to the graph: remove the page, if it is
    /// stored, and report the deletion and one `LinkRemoved` per
    /// outgoing link captured before removal, in stored order.
    ///
    /// No `LinkRemoved` is reported for the incoming links that vanish
    /// with the page.
    pub fn apply_file_deleted(graph: &mut WikiGraph, name: &str) -> (r: Vec<GraphEvent>)
        requires
            old(graph).wf(),
        ensures
            final(graph).wf(),
            !old(graph).spec_page_exists(name@) ==> *final(graph) == *old(graph) && r@.len() == 0,
            !final(graph).spec_page_exists(name@),
            forall|n: Seq<char>|
                n != name@ ==> (#[trigger] final(graph).spec_page_exists(n) <==> old(
                    graph,
                ).spec_page_exists(n)),
            forall|n: Seq<char>|
                n != name@ && old(graph).spec_page_exists(n)
                    ==> #[trigger] final(graph).page_at(n) == old(graph).page_at(n),
            old(graph).spec_page_exists(name@) ==> final(graph).links_view() == old(
                graph,
            ).links_view().filter(crate::graph::edge_avoids(name@)),
            old(graph).spec_page_exists(name@) ==> r.deep_view() == seq![
                EventV::PageDeleted { name: name@ },
            ] + old(graph).outgoing_seq(name@).map_values(removed_event_of(name@)),
    {
        if !graph.page_exists(name) {
            return Vec::new();
        }
        let outlinks = graph.get_outlinks(name);
        let _removed = graph.remove_page(name);
        let mut events: Vec<GraphEvent> = Vec::new();
        events.push(GraphEvent::PageDeleted { name: name.to_owned() });
        let ghost odv = outlinks.deep_view();
        let ghost goal = seq![EventV::PageDeleted { name: name@ }] + odv.map_values(
            removed_event_of(name@),
        );
        proof {
            assert(events.deep_view() =~= seq![EventV::PageDeleted { name: name@ }] + odv.take(
                0,
            ).map_values(removed_event_of(name@)));
        }
        let n = outlinks.len();
        for i in 0..n
            invariant
                n == outlinks@.len(),
                odv == outlinks.deep_view(),
                events.deep_view() == seq![EventV::PageDeleted { name: name@ }] + odv.take(
                    i as int,
                ).map_values(removed_event_of(name@)),
        {
            let ghost prev = events.deep_view();
            events.push(
                GraphEvent::LinkRemoved { from: name.to_owned(), to: outlinks[i].clone() },
            );
            proof {
                assert(odv[i as int] == outlinks@[i as int]@);
                assert(events.deep_view() =~= prev.push(
                    EventV::LinkRemoved { from: name@, to: odv[i as int] },
                ));
                assert(odv.take(i + 1) =~= odv.take(i as int).push(odv[i as int]));
                assert(events.deep_view() =~= seq![EventV::PageDeleted { name: name@ }]
                    + odv.take(i + 1).map_values(removed_event_of(name@)));
            }
        }
        proof {
            assert(odv.take(n as int) =~= odv);
        }
        events
    }
}

} // verus!
