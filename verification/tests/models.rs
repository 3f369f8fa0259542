use graph_core::models::{Metadata, PageInfo, PageNode, ParsedLink, WikiLink};

#[test]
fn test_page_info_creation() {
    let page = PageInfo::new("TestPage".to_string(), "TestPage.md".to_string());
    assert_eq!(page.name, "TestPage");
    assert_eq!(page.file_path, "TestPage.md");
    assert!(page.metadata.is_empty());
}

#[test]
fn test_page_info_with_metadata() {
    let mut metadata = Metadata::new();
    metadata.insert("status".to_string(), vec!["draft".to_string()]);

    let page = PageInfo::with_metadata(
        "TestPage".to_string(),
        "TestPage.md".to_string(),
        metadata,
    );

    assert_eq!(page.name, "TestPage");
    assert_eq!(
        page.metadata.get("status"),
        Some(&vec!["draft".to_string()])
    );
}

#[test]
fn test_page_info_from_page_node() {
    let mut metadata = Metadata::new();
    metadata.insert(
        "tags".to_string(),
        vec!["rust".to_string(), "wiki".to_string()],
    );

    let node = PageNode::with_metadata(
        "TestNode".to_string(),
        "test/TestNode.md".to_string(),
        metadata,
        0,
    );

    let info = PageInfo::from_node(&node);
    assert_eq!(info.name, "TestNode");
    assert_eq!(info.file_path, "test/TestNode.md");
    assert_eq!(
        info.metadata.get("tags"),
        Some(&vec!["rust".to_string(), "wiki".to_string()])
    );
}

#[test]
fn test_page_node_new() {
    let node = PageNode::new("TestPage".to_string(), "TestPage.md".to_string());
    assert_eq!(node.name, "TestPage");
    assert_eq!(node.file_path, "TestPage.md".to_string());
    assert!(node.metadata.is_empty());
}

#[test]
fn test_page_node_with_metadata() {
    let mut metadata = Metadata::new();
    metadata.insert("status".to_string(), vec!["draft".to_string()]);
    metadata.insert(
        "tags".to_string(),
        vec!["rust".to_string(), "wiki".to_string()],
    );

    let node = PageNode::with_metadata(
        "TestPage".to_string(),
        "TestPage.md".to_string(),
        metadata,
        0,
    );

    assert_eq!(node.name, "TestPage");
    assert_eq!(
        node.metadata.get("status"),
        Some(&vec!["draft".to_string()])
    );
    assert_eq!(
        node.metadata.get("tags"),
        Some(&vec!["rust".to_string(), "wiki".to_string()])
    );
}

#[test]
fn test_wiki_link_new() {
    let link = WikiLink::new();
    assert!(link.display_text.is_none());
}

#[test]
fn test_wiki_link_with_display_text() {
    let link = WikiLink::with_display_text("Custom Text".to_string());
    assert_eq!(link.display_text, Some("Custom Text".to_string()));
}

#[test]
fn test_parsed_link() {
    let link = ParsedLink::new("TargetPage".to_string(), Some("Display".to_string()));
    assert_eq!(link.target, "TargetPage");
    assert_eq!(link.display_text, Some("Display".to_string()));
}

#[test]
fn test_metadata_insert_replaces() {
    let mut metadata = Metadata::new();
    metadata.insert("status".to_string(), vec!["draft".to_string()]);
    metadata.insert("status".to_string(), vec!["published".to_string()]);
    assert_eq!(metadata.len(), 1);
    assert_eq!(
        metadata.get("status"),
        Some(&vec!["published".to_string()])
    );
    assert!(metadata.contains_key("status"));
    assert!(!metadata.contains_key("missing"));
}
