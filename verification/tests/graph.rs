use graph_core::events::GraphEvent;
use graph_core::graph::WikiGraph;
use graph_core::models::{Metadata, PageNode, ParsedLink, WikiLink};

#[test]
fn test_new_graph() {
    let graph = WikiGraph::new();
    assert_eq!(graph.page_count(), 0);
    assert_eq!(graph.link_count(), 0);
}

#[test]
fn test_add_page() {
    let mut graph = WikiGraph::new();
    let page = PageNode::new("TestPage".to_string(), "TestPage.md".to_string());
    graph.add_page(page);

    assert_eq!(graph.page_count(), 1);
    assert!(graph.page_exists("TestPage"));
    assert!(graph.get_page("TestPage").is_some());
}

#[test]
fn test_add_page_update() {
    let mut graph = WikiGraph::new();

    let page1 = PageNode::new("TestPage".to_string(), "old.md".to_string());
    graph.add_page(page1);

    let page2 = PageNode::new("TestPage".to_string(), "new.md".to_string());
    graph.add_page(page2);

    assert_eq!(graph.page_count(), 1);
    assert_eq!(
        graph.get_page("TestPage").unwrap().file_path,
        "new.md".to_string()
    );
}

#[test]
fn test_list_pages() {
    let mut graph = WikiGraph::new();
    graph.add_page(PageNode::new("Page1".to_string(), "1.md".to_string()));
    graph.add_page(PageNode::new("Page2".to_string(), "2.md".to_string()));

    let pages = graph.list_pages();
    assert_eq!(pages.len(), 2);

    let names: Vec<&str> = pages.iter().map(|p| p.name.as_str()).collect();
    assert!(names.contains(&"Page1"));
    assert!(names.contains(&"Page2"));
}

#[test]
fn test_add_link() {
    let mut graph = WikiGraph::new();
    graph.add_page(PageNode::new("Page1".to_string(), "1.md".to_string()));
    graph.add_page(PageNode::new("Page2".to_string(), "2.md".to_string()));

    assert!(graph.add_link("Page1", "Page2", WikiLink::new()));
    assert_eq!(graph.link_count(), 1);
}

#[test]
fn test_add_link_missing_page() {
    let mut graph = WikiGraph::new();
    graph.add_page(PageNode::new("Page1".to_string(), "1.md".to_string()));

    // a link to a page the store does not hold is reported as failure
    assert!(!graph.add_link("Page1", "NonExistent", WikiLink::new()));
    assert_eq!(graph.link_count(), 0);
}

#[test]
fn test_get_backlinks() {
    let mut graph = WikiGraph::new();
    graph.add_page(PageNode::new("HomePage".to_string(), "home.md".to_string()));
    graph.add_page(PageNode::new("About".to_string(), "about.md".to_string()));
    graph.add_page(PageNode::new("Contact".to_string(), "contact.md".to_string()));

    graph.add_link("About", "HomePage", WikiLink::new());
    graph.add_link("Contact", "HomePage", WikiLink::new());

    let backlinks = graph.get_backlinks("HomePage");
    assert_eq!(backlinks.len(), 2);
    assert!(backlinks.contains(&"About".to_string()));
    assert!(backlinks.contains(&"Contact".to_string()));
}

#[test]
fn test_get_backlinks_none() {
    let mut graph = WikiGraph::new();
    graph.add_page(PageNode::new("Orphan".to_string(), "orphan.md".to_string()));

    let backlinks = graph.get_backlinks("Orphan");
    assert!(backlinks.is_empty());
}

#[test]
fn test_get_backlinks_nonexistent() {
    let graph = WikiGraph::new();
    let backlinks = graph.get_backlinks("NonExistent");
    assert!(backlinks.is_empty());
}

#[test]
fn test_get_outlinks() {
    let mut graph = WikiGraph::new();
    graph.add_page(PageNode::new("Index".to_string(), "index.md".to_string()));
    graph.add_page(PageNode::new("About".to_string(), "about.md".to_string()));
    graph.add_page(PageNode::new("Contact".to_string(), "contact.md".to_string()));

    graph.add_link("Index", "About", WikiLink::new());
    graph.add_link("Index", "Contact", WikiLink::new());

    let outlinks = graph.get_outlinks("Index");
    assert_eq!(outlinks.len(), 2);
    assert!(outlinks.contains(&"About".to_string()));
    assert!(outlinks.contains(&"Contact".to_string()));
}

#[test]
fn test_clear() {
    let mut graph = WikiGraph::new();
    graph.add_page(PageNode::new("Page1".to_string(), "1.md".to_string()));
    graph.add_page(PageNode::new("Page2".to_string(), "2.md".to_string()));
    graph.add_link("Page1", "Page2", WikiLink::new());

    assert_eq!(graph.page_count(), 2);
    assert_eq!(graph.link_count(), 1);

    graph.clear();

    assert_eq!(graph.page_count(), 0);
    assert_eq!(graph.link_count(), 0);
    assert!(!graph.page_exists("Page1"));
}

#[test]
fn test_remove_page() {
    let mut graph = WikiGraph::new();
    graph.add_page(PageNode::new("Page1".to_string(), "1.md".to_string()));
    graph.add_page(PageNode::new("Page2".to_string(), "2.md".to_string()));
    graph.add_link("Page1", "Page2", WikiLink::new());

    assert!(graph.remove_page("Page1"));
    assert!(!graph.page_exists("Page1"));
    assert_eq!(graph.page_count(), 1);
    assert_eq!(graph.link_count(), 0);
}

#[test]
fn test_remove_page_nonexistent() {
    let mut graph = WikiGraph::new();
    assert!(!graph.remove_page("NonExistent"));
}

#[test]
fn test_remove_page_updates_index() {
    // the name lookup stays valid for every surviving page
    let mut graph = WikiGraph::new();
    graph.add_page(PageNode::new("First".to_string(), "1.md".to_string()));
    graph.add_page(PageNode::new("Second".to_string(), "2.md".to_string()));
    graph.add_page(PageNode::new("Third".to_string(), "3.md".to_string()));

    graph.remove_page("First");

    assert!(!graph.page_exists("First"));
    assert!(graph.page_exists("Second"));
    assert!(graph.page_exists("Third"));
    assert_eq!(graph.page_count(), 2);

    assert!(graph.get_page("Second").is_some());
    assert!(graph.get_page("Third").is_some());
}

#[test]
fn test_remove_outgoing_edges() {
    let mut graph = WikiGraph::new();
    graph.add_page(PageNode::new("Source".to_string(), "s.md".to_string()));
    graph.add_page(PageNode::new("Target1".to_string(), "t1.md".to_string()));
    graph.add_page(PageNode::new("Target2".to_string(), "t2.md".to_string()));

    graph.add_link("Source", "Target1", WikiLink::new());
    graph.add_link("Source", "Target2", WikiLink::new());

    assert_eq!(graph.link_count(), 2);
    assert_eq!(graph.get_outlinks("Source").len(), 2);

    graph.remove_outgoing_edges("Source");

    assert_eq!(graph.link_count(), 0);
    assert_eq!(graph.get_outlinks("Source").len(), 0);
}

#[test]
fn test_update_page_new() {
    let mut graph = WikiGraph::new();

    let events = graph.update_page(
        "NewPage",
        "NewPage.md".to_string(),
        Metadata::new(),
        vec![ParsedLink::new("Target".to_string(), None)],
        0,
    );

    assert!(graph.page_exists("NewPage"));
    assert!(graph.page_exists("Target"));
    assert_eq!(graph.link_count(), 1);

    assert_eq!(events.len(), 1);
    assert!(matches!(
        &events[0],
        GraphEvent::LinkCreated { from, to } if from == "NewPage" && to == "Target"
    ));
}

#[test]
fn test_update_page_modify_links() {
    let mut graph = WikiGraph::new();

    graph.update_page(
        "Test",
        "Test.md".to_string(),
        Metadata::new(),
        vec![
            ParsedLink::new("A".to_string(), None),
            ParsedLink::new("B".to_string(), None),
        ],
        0,
    );

    assert_eq!(graph.get_outlinks("Test").len(), 2);

    let events = graph.update_page(
        "Test",
        "Test.md".to_string(),
        Metadata::new(),
        vec![
            ParsedLink::new("B".to_string(), None),
            ParsedLink::new("C".to_string(), None),
        ],
        0,
    );

    assert!(events
        .iter()
        .any(|e| matches!(e, GraphEvent::LinkRemoved { from, to } if from == "Test" && to == "A")));
    assert!(events
        .iter()
        .any(|e| matches!(e, GraphEvent::LinkCreated { from, to } if from == "Test" && to == "C")));

    assert!(!events
        .iter()
        .any(|e| matches!(e, GraphEvent::LinkCreated { to, .. } | GraphEvent::LinkRemoved { to, .. } if to == "B")));
}

#[test]
fn test_update_page_no_changes() {
    let mut graph = WikiGraph::new();

    graph.update_page(
        "Test",
        "Test.md".to_string(),
        Metadata::new(),
        vec![ParsedLink::new("A".to_string(), None)],
        0,
    );

    let events = graph.update_page(
        "Test",
        "Test.md".to_string(),
        Metadata::new(),
        vec![ParsedLink::new("A".to_string(), None)],
        0,
    );

    assert!(events.is_empty());
}
