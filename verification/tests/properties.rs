use graph_core::events::GraphEvent;
use graph_core::graph::{PageEntry, WikiGraph};
use graph_core::models::{Metadata, PageNode, ParsedLink, WikiLink};
use graph_core::parser::parse_markdown;
use graph_core::query::Filter;
use graph_core::watcher::{FileWatcher, PageAction, PathChange};

#[test]
fn readding_page_preserves_incident_edges() {
    let mut graph = WikiGraph::new();
    graph.add_page(PageNode::new("Hub".to_string(), "hub.md".to_string()));
    graph.add_page(PageNode::new("Spoke".to_string(), "spoke.md".to_string()));
    graph.add_link("Hub", "Spoke", WikiLink::new());
    graph.add_link("Spoke", "Hub", WikiLink::new());

    let mut meta = Metadata::new();
    meta.insert("status".to_string(), vec!["fresh".to_string()]);
    graph.add_page(PageNode::with_metadata(
        "Hub".to_string(),
        "hub-moved.md".to_string(),
        meta,
        7,
    ));

    // attributes were overwritten, edges in both directions survive
    let hub = graph.get_page("Hub").unwrap();
    assert_eq!(hub.file_path, "hub-moved.md".to_string());
    assert_eq!(hub.last_modified, 7);
    assert_eq!(graph.link_count(), 2);
    assert_eq!(graph.get_outlinks("Hub"), vec!["Spoke".to_string()]);
    assert_eq!(graph.get_backlinks("Hub"), vec!["Spoke".to_string()]);
}

#[test]
fn remove_page_drops_exactly_incident_links() {
    let mut graph = WikiGraph::new();
    for (name, path) in [("X", "x.md"), ("A", "a.md"), ("B", "b.md"), ("C", "c.md")] {
        graph.add_page(PageNode::new(name.to_string(), path.to_string()));
    }
    graph.add_link("X", "A", WikiLink::new());
    graph.add_link("B", "X", WikiLink::new());
    graph.add_link("B", "C", WikiLink::new());

    let before = graph.link_count();
    assert!(graph.remove_page("X"));

    assert!(!graph.page_exists("X"));
    // exactly the two edges touching X are gone
    assert_eq!(graph.link_count(), before - 2);
    // every other page is retrievable with unchanged attributes
    assert_eq!(graph.get_page("A").unwrap().file_path, "a.md".to_string());
    assert_eq!(graph.get_page("B").unwrap().file_path, "b.md".to_string());
    assert_eq!(graph.get_page("C").unwrap().file_path, "c.md".to_string());
    assert_eq!(graph.get_outlinks("B"), vec!["C".to_string()]);
}

#[test]
fn identical_update_emits_zero_events() {
    let mut graph = WikiGraph::new();
    let links = || {
        vec![
            ParsedLink::new("A".to_string(), Some("first".to_string())),
            ParsedLink::new("B".to_string(), None),
        ]
    };
    graph.update_page("Home", "home.md".to_string(), Metadata::new(), links(), 1);
    let events = graph.update_page("Home", "home.md".to_string(), Metadata::new(), links(), 2);
    assert!(events.is_empty());
}

#[test]
fn link_diff_is_symmetric_difference() {
    let mut graph = WikiGraph::new();
    graph.update_page(
        "P",
        "p.md".to_string(),
        Metadata::new(),
        vec![
            ParsedLink::new("A".to_string(), None),
            ParsedLink::new("B".to_string(), None),
            ParsedLink::new("C".to_string(), None),
        ],
        0,
    );

    // old outgoing set {A, B, C}, new set {B, C, D, E}
    let events = graph.update_page(
        "P",
        "p.md".to_string(),
        Metadata::new(),
        vec![
            ParsedLink::new("B".to_string(), None),
            ParsedLink::new("C".to_string(), None),
            ParsedLink::new("D".to_string(), None),
            ParsedLink::new("E".to_string(), None),
        ],
        0,
    );

    let removed: Vec<_> = events
        .iter()
        .filter(|e| matches!(e, GraphEvent::LinkRemoved { .. }))
        .collect();
    let created: Vec<_> = events
        .iter()
        .filter(|e| matches!(e, GraphEvent::LinkCreated { .. }))
        .collect();
    assert_eq!(removed.len(), 1);
    assert_eq!(created.len(), 2);
    assert_eq!(events.len(), 3);
    assert!(matches!(removed[0], GraphEvent::LinkRemoved { to, .. } if to == "A"));
}

#[test]
fn query_of_two_filters_is_intersection() {
    let mut graph = WikiGraph::new();
    let page = |name: &str, status: &str, author: &str| {
        let mut meta = Metadata::new();
        meta.insert("status".to_string(), vec![status.to_string()]);
        meta.insert("author".to_string(), vec![author.to_string()]);
        PageNode::with_metadata(name.to_string(), format!("{}.md", name), meta, 0)
    };
    graph.add_page(page("One", "draft", "alice"));
    graph.add_page(page("Two", "draft", "bob"));
    graph.add_page(page("Three", "published", "alice"));

    let by_status = Filter::Equals {
        key: "status".to_string(),
        value: "draft".to_string(),
    };
    let by_author = Filter::Equals {
        key: "author".to_string(),
        value: "alice".to_string(),
    };

    let names = |filters: &[Filter]| -> Vec<String> {
        graph.query(filters).iter().map(|p| p.name.clone()).collect()
    };

    let both = names(&[by_status.clone(), by_author.clone()]);
    let first: Vec<String> = names(&[by_status.clone()]);
    let second: Vec<String> = names(&[by_author.clone()]);
    let intersection: Vec<String> = first
        .iter()
        .filter(|n| second.contains(n))
        .cloned()
        .collect();
    assert_eq!(both, intersection);
    assert_eq!(both, vec!["One".to_string()]);
}

#[test]
fn invalid_regex_yields_empty_match_set() {
    let mut graph = WikiGraph::new();
    let mut meta = Metadata::new();
    meta.insert("text".to_string(), vec!["hello".to_string()]);
    graph.add_page(PageNode::with_metadata(
        "Page".to_string(),
        "page.md".to_string(),
        meta,
        0,
    ));

    let filter = Filter::Matches {
        key: "text".to_string(),
        pattern: "[invalid".to_string(),
    };
    let results = graph.query(&[filter]);
    assert!(results.is_empty());
}

#[test]
fn scenario_index_links_to_new_about_page() {
    // page "Index" is created with a link to "About" before any
    // "About" file exists
    let mut graph = WikiGraph::new();
    let parsed = parse_markdown("# Index\n\nSee [[About|About Us]].");
    let events = FileWatcher::apply_file_changed(
        &mut graph,
        "Index",
        "Index.md".to_string(),
        parsed,
        0,
    );

    assert_eq!(graph.page_count(), 2);
    assert_eq!(graph.link_count(), 1);
    assert!(graph.page_exists("About"));
    assert!(events.iter().any(
        |e| matches!(e, GraphEvent::LinkCreated { from, to } if from == "Index" && to == "About"),
    ));
    // the display text of the stored link is preserved
    let parsed_again = parse_markdown("# Index\n\nSee [[About|About Us]].");
    assert_eq!(
        parsed_again.links[0].display_text,
        Some("About Us".to_string())
    );
}

#[test]
fn scenario_update_mentions_only_changed_links() {
    // "Home" links to {A, B}; an update makes that {B, C}
    let mut graph = WikiGraph::new();
    graph.update_page(
        "Home",
        "home.md".to_string(),
        Metadata::new(),
        vec![
            ParsedLink::new("A".to_string(), None),
            ParsedLink::new("B".to_string(), None),
        ],
        0,
    );
    let events = graph.update_page(
        "Home",
        "home.md".to_string(),
        Metadata::new(),
        vec![
            ParsedLink::new("B".to_string(), None),
            ParsedLink::new("C".to_string(), None),
        ],
        0,
    );

    assert_eq!(
        events,
        vec![
            GraphEvent::LinkRemoved {
                from: "Home".to_string(),
                to: "A".to_string()
            },
            GraphEvent::LinkCreated {
                from: "Home".to_string(),
                to: "C".to_string()
            },
        ]
    );
}

#[test]
fn scenario_delete_page_reports_outgoing_links_only() {
    // "P" has two outgoing links and one incoming link from "Q"
    let mut graph = WikiGraph::new();
    graph.update_page(
        "P",
        "p.md".to_string(),
        Metadata::new(),
        vec![
            ParsedLink::new("A".to_string(), None),
            ParsedLink::new("B".to_string(), None),
        ],
        0,
    );
    graph.update_page(
        "Q",
        "q.md".to_string(),
        Metadata::new(),
        vec![ParsedLink::new("P".to_string(), None)],
        0,
    );

    let before = graph.link_count();
    let events = FileWatcher::apply_file_deleted(&mut graph, "P");

    assert_eq!(
        events,
        vec![
            GraphEvent::PageDeleted {
                name: "P".to_string()
            },
            GraphEvent::LinkRemoved {
                from: "P".to_string(),
                to: "A".to_string()
            },
            GraphEvent::LinkRemoved {
                from: "P".to_string(),
                to: "B".to_string()
            },
        ]
    );
    // Q still exists, unchanged; only edges incident to P are gone
    assert!(graph.page_exists("Q"));
    assert_eq!(graph.get_page("Q").unwrap().file_path, "q.md".to_string());
    assert_eq!(graph.link_count(), before - 3);
}

#[test]
fn scenario_ineligible_extension_yields_no_actions() {
    // the watcher observes the creation of a file with an ineligible
    // extension: the batch plans no action, so no event can ever
    // reach the queue
    let changes = vec![PathChange {
        path: "notes.txt".to_string(),
        exists: true,
    }];
    let actions = FileWatcher::plan_changes(&changes);
    assert!(actions.is_empty());
}

#[test]
fn plan_changes_classifies_and_deduplicates() {
    let changes = vec![
        PathChange {
            path: "sub/New.md".to_string(),
            exists: true,
        },
        PathChange {
            path: "sub/New.md".to_string(),
            exists: true,
        },
        PathChange {
            path: "Gone.md".to_string(),
            exists: false,
        },
        PathChange {
            path: "README".to_string(),
            exists: true,
        },
        PathChange {
            path: ".md".to_string(),
            exists: true,
        },
    ];
    let actions = FileWatcher::plan_changes(&changes);
    assert_eq!(actions.len(), 2);
    assert!(
        matches!(&actions[0], PageAction::Upsert { name, path } if name == "New" && path == "sub/New.md"),
    );
    assert!(matches!(&actions[1], PageAction::Delete { name } if name == "Gone"));
}

#[test]
fn build_from_entries_two_passes() {
    let entry = |name: &str, targets: Vec<&str>| PageEntry {
        name: name.to_string(),
        file_path: format!("{}.md", name),
        metadata: Metadata::new(),
        links: targets
            .into_iter()
            .map(|t| ParsedLink::new(t.to_string(), None))
            .collect(),
        last_modified: 0,
    };
    let mut graph = WikiGraph::new();
    graph.build_from_entries(&vec![
        entry("Index", vec!["About", "Missing"]),
        entry("About", vec!["Index"]),
    ]);

    // both named pages, plus a stub for the target no entry names
    assert_eq!(graph.page_count(), 3);
    assert_eq!(graph.link_count(), 3);
    assert!(graph.page_exists("Missing"));
    assert_eq!(graph.get_backlinks("Index"), vec!["About".to_string()]);
    let outlinks = graph.get_outlinks("Index");
    assert!(outlinks.contains(&"About".to_string()));
    assert!(outlinks.contains(&"Missing".to_string()));
}

#[test]
fn update_page_keeps_first_display_text() {
    let mut graph = WikiGraph::new();
    graph.update_page(
        "Home",
        "home.md".to_string(),
        Metadata::new(),
        vec![
            ParsedLink::new("A".to_string(), Some("first".to_string())),
            ParsedLink::new("A".to_string(), Some("second".to_string())),
        ],
        0,
    );
    // the duplicate target collapses into one edge
    assert_eq!(graph.link_count(), 1);
    assert_eq!(graph.get_outlinks("Home"), vec!["A".to_string()]);
}
