use graph_core::parser::{extract_wiki_links, parse_frontmatter, parse_markdown, strip_frontmatter};

#[test]
fn test_parse_frontmatter_simple() {
    let content = "---\nstatus: draft\nauthor: jhuhta\n---\n# Content here";

    let metadata = parse_frontmatter(content);
    assert_eq!(metadata.get("status"), Some(&vec!["draft".to_string()]));
    assert_eq!(metadata.get("author"), Some(&vec!["jhuhta".to_string()]));
}

#[test]
fn test_parse_frontmatter_with_list() {
    let content = "---\ntags:\n  - rust\n  - wiki\n  - graph\n---\n# Content";

    let metadata = parse_frontmatter(content);
    let tags = metadata.get("tags").unwrap();
    assert_eq!(tags.len(), 3);
    assert!(tags.contains(&"rust".to_string()));
    assert!(tags.contains(&"wiki".to_string()));
    assert!(tags.contains(&"graph".to_string()));
}

#[test]
fn test_parse_frontmatter_empty() {
    let content = "# No frontmatter\nJust content.";
    let metadata = parse_frontmatter(content);
    assert!(metadata.is_empty());
}

#[test]
fn test_parse_frontmatter_no_closing() {
    let content = "---\nstatus: draft\nNo closing delimiter";
    let metadata = parse_frontmatter(content);
    assert!(metadata.is_empty());
}

#[test]
fn test_parse_frontmatter_with_numbers_and_bools() {
    let content = "---\ncount: 42\nenabled: true\nratio: 3.14\n---\n# Content";

    let metadata = parse_frontmatter(content);
    assert_eq!(metadata.get("count"), Some(&vec!["42".to_string()]));
    assert_eq!(metadata.get("enabled"), Some(&vec!["true".to_string()]));
    assert_eq!(metadata.get("ratio"), Some(&vec!["3.14".to_string()]));
}

#[test]
fn test_strip_frontmatter() {
    let content = "---\nstatus: draft\n---\n# Title\n\nContent here.";

    let body = strip_frontmatter(content);
    assert!(body.starts_with("# Title"));
    assert!(body.contains("Content here."));
    assert!(!body.contains("status: draft"));
}

#[test]
fn test_strip_frontmatter_no_frontmatter() {
    let content = "# Title\n\nContent here.";
    let body = strip_frontmatter(content);
    assert_eq!(body, content);
}

#[test]
fn test_extract_wiki_links_simple() {
    let content = "This links to [[HomePage]] and [[About]].";
    let links = extract_wiki_links(content);

    assert_eq!(links.len(), 2);
    assert_eq!(links[0].target, "HomePage");
    assert!(links[0].display_text.is_none());
    assert_eq!(links[1].target, "About");
}

#[test]
fn test_extract_wiki_links_with_display_text() {
    let content = "Check out [[HomePage|the home page]] for more info.";
    let links = extract_wiki_links(content);

    assert_eq!(links.len(), 1);
    assert_eq!(links[0].target, "HomePage");
    assert_eq!(links[0].display_text, Some("the home page".to_string()));
}

#[test]
fn test_extract_wiki_links_mixed() {
    let content = "\n# Links\n\nSee [[HomePage]] for the main page.\nAlso check [[About|About Us]] and [[Contact]].\n        ";

    let links = extract_wiki_links(content);
    assert_eq!(links.len(), 3);
    assert_eq!(links[0].target, "HomePage");
    assert_eq!(links[1].target, "About");
    assert_eq!(links[1].display_text, Some("About Us".to_string()));
    assert_eq!(links[2].target, "Contact");
}

#[test]
fn test_extract_wiki_links_duplicates_removed() {
    let content = "[[Page]] links to [[Page]] twice.";
    let links = extract_wiki_links(content);
    assert_eq!(links.len(), 1);
}

#[test]
fn test_extract_wiki_links_empty_content() {
    let content = "";
    let links = extract_wiki_links(content);
    assert!(links.is_empty());
}

#[test]
fn test_extract_wiki_links_no_links() {
    let content = "This is just regular [markdown](http://example.com) content.";
    let links = extract_wiki_links(content);
    assert!(links.is_empty());
}

#[test]
fn test_extract_wiki_links_whitespace_trimmed() {
    let content = "[[ SpacedPage | Display Text ]]";
    let links = extract_wiki_links(content);
    assert_eq!(links.len(), 1);
    assert_eq!(links[0].target, "SpacedPage");
    assert_eq!(links[0].display_text, Some("Display Text".to_string()));
}

#[test]
fn test_extract_wiki_links_empty_target_ignored() {
    let content = "An empty [[ ]] pair and [[ |text only]] are no links.";
    let links = extract_wiki_links(content);
    assert!(links.is_empty());
}

#[test]
fn test_parse_markdown_complete() {
    let content = "---\nstatus: published\ntags:\n  - rust\n  - wiki\n---\n# Welcome\n\nThis page links to [[HomePage]] and [[About|About Us]].\n";

    let parsed = parse_markdown(content);

    assert_eq!(
        parsed.metadata.get("status"),
        Some(&vec!["published".to_string()])
    );
    assert_eq!(parsed.metadata.get("tags").unwrap().len(), 2);

    assert_eq!(parsed.links.len(), 2);
    assert_eq!(parsed.links[0].target, "HomePage");
    assert_eq!(parsed.links[1].target, "About");

    assert!(parsed.content.starts_with("# Welcome"));
}
