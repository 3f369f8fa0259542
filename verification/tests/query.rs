use graph_core::graph::WikiGraph;
use graph_core::models::{Metadata, PageNode};
use graph_core::query::{matches_all_filters, Filter};

fn test_page(name: &str, metadata: Vec<(&str, Vec<&str>)>) -> PageNode {
    let mut meta = Metadata::new();
    for (k, v) in metadata {
        meta.insert(k.to_string(), v.iter().map(|s| s.to_string()).collect());
    }
    PageNode::with_metadata(name.to_string(), format!("{}.md", name), meta, 0)
}

#[test]
fn test_filter_equals() {
    let page = test_page("Test", vec![("status", vec!["draft"])]);
    let graph = WikiGraph::new();

    let filter = Filter::Equals {
        key: "status".to_string(),
        value: "draft".to_string(),
    };
    assert!(filter.matches_page(&page, &graph));

    let filter = Filter::Equals {
        key: "status".to_string(),
        value: "published".to_string(),
    };
    assert!(!filter.matches_page(&page, &graph));
}

#[test]
fn test_filter_equals_multi_value() {
    let page = test_page("Test", vec![("tags", vec!["rust", "wiki", "graph"])]);
    let graph = WikiGraph::new();

    let filter = Filter::Equals {
        key: "tags".to_string(),
        value: "wiki".to_string(),
    };
    assert!(filter.matches_page(&page, &graph));
}

#[test]
fn test_filter_has_key() {
    let page = test_page("Test", vec![("status", vec!["draft"])]);
    let graph = WikiGraph::new();

    assert!(Filter::HasKey {
        key: "status".to_string()
    }
    .matches_page(&page, &graph));
    assert!(!Filter::HasKey {
        key: "missing".to_string()
    }
    .matches_page(&page, &graph));
}

#[test]
fn test_filter_contains() {
    let page = test_page("Test", vec![("tags", vec!["rust-lang", "wiki"])]);
    let graph = WikiGraph::new();

    let filter = Filter::Contains {
        key: "tags".to_string(),
        substring: "rust".to_string(),
    };
    assert!(filter.matches_page(&page, &graph));

    let filter = Filter::Contains {
        key: "tags".to_string(),
        substring: "python".to_string(),
    };
    assert!(!filter.matches_page(&page, &graph));
}

#[test]
fn test_filter_matches_regex() {
    let page = test_page("Test", vec![("version", vec!["v1.2.3"])]);
    let graph = WikiGraph::new();

    let filter = Filter::Matches {
        key: "version".to_string(),
        pattern: r"v\d+\.\d+\.\d+".to_string(),
    };
    assert!(filter.matches_page(&page, &graph));

    let filter = Filter::Matches {
        key: "version".to_string(),
        pattern: r"v\d+\.\d+\.\d+\.\d+".to_string(),
    };
    assert!(!filter.matches_page(&page, &graph));
}

#[test]
fn test_filter_invalid_regex() {
    let page = test_page("Test", vec![("text", vec!["hello"])]);
    let graph = WikiGraph::new();

    let filter = Filter::Matches {
        key: "text".to_string(),
        pattern: r"[invalid".to_string(),
    };
    assert!(!filter.matches_page(&page, &graph));
}

#[test]
fn test_filter_missing_key() {
    let page = test_page("Test", vec![("status", vec!["draft"])]);
    let graph = WikiGraph::new();

    assert!(!Filter::Equals {
        key: "missing".to_string(),
        value: "any".to_string()
    }
    .matches_page(&page, &graph));

    assert!(!Filter::Contains {
        key: "missing".to_string(),
        substring: "any".to_string()
    }
    .matches_page(&page, &graph));

    assert!(!Filter::Matches {
        key: "missing".to_string(),
        pattern: ".*".to_string()
    }
    .matches_page(&page, &graph));
}

#[test]
fn test_matches_all_filters() {
    let page = test_page(
        "Test",
        vec![("status", vec!["draft"]), ("author", vec!["alice"])],
    );
    let graph = WikiGraph::new();

    let filters = vec![
        Filter::Equals {
            key: "status".to_string(),
            value: "draft".to_string(),
        },
        Filter::Equals {
            key: "author".to_string(),
            value: "alice".to_string(),
        },
    ];
    assert!(matches_all_filters(&page, &filters, &graph));

    let filters = vec![
        Filter::Equals {
            key: "status".to_string(),
            value: "draft".to_string(),
        },
        Filter::Equals {
            key: "author".to_string(),
            value: "bob".to_string(),
        },
    ];
    assert!(!matches_all_filters(&page, &filters, &graph));

    assert!(matches_all_filters(&page, &[], &graph));
}

#[test]
fn test_filter_links_to_and_linked_from() {
    let mut graph = WikiGraph::new();
    graph.add_page(test_page("Index", vec![]));
    graph.add_page(test_page("About", vec![]));
    graph.add_link(
        "Index",
        "About",
        graph_core::models::WikiLink::new(),
    );

    let index = test_page("Index", vec![]);
    let about = test_page("About", vec![]);

    let links_to = Filter::LinksTo {
        page: "About".to_string(),
    };
    assert!(links_to.matches_page(&index, &graph));
    assert!(!links_to.matches_page(&about, &graph));

    let linked_from = Filter::LinkedFrom {
        page: "Index".to_string(),
    };
    assert!(linked_from.matches_page(&about, &graph));
    assert!(!linked_from.matches_page(&index, &graph));
}

#[test]
fn test_metatable_projection() {
    let mut graph = WikiGraph::new();
    graph.add_page(test_page("Draft", vec![("status", vec!["draft"])]));
    graph.add_page(test_page(
        "Published",
        vec![("status", vec!["published"]), ("author", vec!["alice"])],
    ));

    let filters = vec![Filter::Equals {
        key: "status".to_string(),
        value: "published".to_string(),
    }];
    let columns = vec![
        "name".to_string(),
        "file_path".to_string(),
        "author".to_string(),
        "missing".to_string(),
    ];
    let result = graph.metatable(&filters, &columns);

    assert_eq!(result.len(), 1);
    assert!(!result.is_empty());
    assert_eq!(result.columns, columns);
    let row = &result.rows[0];
    assert_eq!(row.page_name, "Published");
    assert_eq!(row.get("name"), vec!["Published".to_string()]);
    assert_eq!(row.get("file_path"), vec!["Published.md".to_string()]);
    assert_eq!(row.get("author"), vec!["alice".to_string()]);
    // an absent column is simply absent from the row
    assert!(row.get("missing").is_empty());
    assert!(!row.values.contains_key("missing"));
}
