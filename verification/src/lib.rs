//! An EPUB reading library: the package files and archive of a book, its
//! table of contents, chapter HTML reduced to styled text or Markdown,
//! path resolution, in-chapter search, and the reader's own state.

pub mod types;
pub mod text;
pub mod repair;
pub mod paths;
pub mod markdown;
pub mod html;
pub mod toc;
pub mod loading;
pub mod sidebar;
pub mod search;
pub mod xml;
pub mod ncx;
pub mod opf;
pub mod document;
pub mod reader;
pub mod config;
pub mod conversation;
pub mod session;
pub mod spike;
pub mod laws;

pub use document::EpubDocument;
pub use html::first_heading_text;
pub use markdown::{heal_markdown, rewrite_links_and_images, strip_raw_html, trim_leading_blank_lines};
pub use paths::resolve_path;
pub use toc::flatten_toc;
pub use types::{ContentSegment, Metadata, SpineItem, StyledSpan, TocItem};
