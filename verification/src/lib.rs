//! An in-memory directed-graph index over a corpus of wiki pages.
//!
//! Pages are named content units; links are directed references between
//! them.  The graph store keeps pages and links consistent under updates
//! and removals, a parser extracts metadata and links from page text, a
//! filter engine answers queries against the store, and an event queue
//! buffers change notifications in FIFO order.

pub mod events;
pub mod graph;
pub mod models;
pub mod parser;
pub mod query;
pub mod watcher;

pub use events::{EventQueue, GraphEvent};
pub use graph::{PageEntry, WikiGraph};
pub use models::{Metadata, PageInfo, PageNode, ParsedLink, WikiLink};
pub use parser::{ParsedPage, extract_wiki_links, parse_frontmatter, parse_markdown,
    strip_frontmatter};
pub use query::{Filter, MetaTableResult, MetaTableRow, matches_all_filters};
pub use watcher::{FileWatcher, PageAction, PathChange};

