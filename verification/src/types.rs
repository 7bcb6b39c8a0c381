//! The data a book is made of: styled text spans, content segments,
//! metadata, spine items and table-of-contents entries.

use vstd::prelude::*;

verus! {

/// A styled text span.
#[derive(Debug, Clone)]
pub struct StyledSpan {
    pub text: String,
    pub bold: bool,
    pub italic: bool,
    pub underline: bool,
    pub heading_level: u8,
    pub link_url: Option<String>,
    pub color: Option<[u8; 4]>,
}

/// What a span holds, with its text as characters.
pub struct SpanView {
    pub text: Seq<char>,
    pub bold: bool,
    pub italic: bool,
    pub underline: bool,
    pub heading_level: u8,
    pub link_url: Option<Seq<char>>,
    pub color: Option<[u8; 4]>,
}

pub open spec fn opt_view(o: Option<String>) -> Option<Seq<char>> {
    match o {
        Some(s) => Some(s@),
        None => None,
    }
}

impl View for StyledSpan {
    type V = SpanView;

    open spec fn view(&self) -> SpanView {
        SpanView {
            text: self.text@,
            bold: self.bold,
            italic: self.italic,
            underline: self.underline,
            heading_level: self.heading_level,
            link_url: opt_view(self.link_url),
            color: self.color,
        }
    }
}

/// A copy of an optional string.
pub fn copy_opt(o: &Option<String>) -> (r: Option<String>)
    ensures
        opt_view(r) == opt_view(*o),
{
    match o {
        Some(s) => Some(s.clone()),
        None => None,
    }
}

impl StyledSpan {
    /// A span with no link and no color.
    pub fn new(text: String, bold: bool, italic: bool, underline: bool, heading: u8) -> (r: Self)
        ensures
            r@ == (SpanView {
                text: text@,
                bold,
                italic,
                underline,
                heading_level: heading,
                link_url: None,
                color: None,
            }),
    {
        StyledSpan {
            text,
            bold,
            italic,
            underline,
            heading_level: heading,
            link_url: None,
            color: None,
        }
    }
}

/// Parsed content segment: styled text or an image reference.
#[derive(Debug, Clone)]
pub enum ContentSegment {
    StyledText(Vec<StyledSpan>),
    Image { href: String },
}

/// What a segment holds.
pub enum SegmentView {
    StyledText(Seq<SpanView>),
    Image(Seq<char>),
}

pub open spec fn span_views(v: Seq<StyledSpan>) -> Seq<SpanView> {
    v.map_values(|s: StyledSpan| s@)
}

impl View for ContentSegment {
    type V = SegmentView;

    open spec fn view(&self) -> SegmentView {
        match self {
            ContentSegment::StyledText(spans) => SegmentView::StyledText(span_views(spans@)),
            ContentSegment::Image { href } => SegmentView::Image(href@),
        }
    }
}

pub open spec fn segment_views(v: Seq<ContentSegment>) -> Seq<SegmentView> {
    v.map_values(|s: ContentSegment| s@)
}

/// Book metadata.
#[derive(Debug, Clone)]
pub struct Metadata {
    pub title: String,
    pub creator: Option<String>,
    pub language: Option<String>,
    pub publisher: Option<String>,
    pub date: Option<String>,
    pub description: Option<String>,
}

/// What book metadata holds.
pub struct MetaView {
    pub title: Seq<char>,
    pub creator: Option<Seq<char>>,
    pub language: Option<Seq<char>>,
    pub publisher: Option<Seq<char>>,
    pub date: Option<Seq<char>>,
    pub description: Option<Seq<char>>,
}

impl View for Metadata {
    type V = MetaView;

    open spec fn view(&self) -> MetaView {
        MetaView {
            title: self.title@,
            creator: opt_view(self.creator),
            language: opt_view(self.language),
            publisher: opt_view(self.publisher),
            date: opt_view(self.date),
            description: opt_view(self.description),
        }
    }
}

impl Metadata {
    /// Metadata with an empty title and nothing else.
    pub fn empty() -> (m: Self)
        ensures
            m@ == (MetaView {
                title: seq![],
                creator: None,
                language: None,
                publisher: None,
                date: None,
                description: None,
            }),
    {
        Metadata {
            title: String::new(),
            creator: None,
            language: None,
            publisher: None,
            date: None,
            description: None,
        }
    }
}

impl Default for Metadata {
    fn default() -> (m: Self)
        ensures
            m@ == (MetaView {
                title: seq![],
                creator: None,
                language: None,
                publisher: None,
                date: None,
                description: None,
            }),
    {
        Metadata::empty()
    }
}

/// An item of the reading order.
#[derive(Debug, Clone)]
pub struct SpineItem {
    pub id: String,
    pub href: String,
    pub media_type: Option<String>,
}

/// What a spine item holds.
pub struct SpineView {
    pub id: Seq<char>,
    pub href: Seq<char>,
    pub media_type: Option<Seq<char>>,
}

impl View for SpineItem {
    type V = SpineView;

    open spec fn view(&self) -> SpineView {
        SpineView { id: self.id@, href: self.href@, media_type: opt_view(self.media_type) }
    }
}

pub open spec fn spine_views(v: Seq<SpineItem>) -> Seq<SpineView> {
    v.map_values(|s: SpineItem| s@)
}

/// A table-of-contents entry with its nested entries.
#[derive(Debug)]
pub struct TocItem {
    pub label: String,
    pub href: String,
    pub children: Vec<TocItem>,
}

/// Two entries with the same label and href and (recursively) the same
/// children.
pub open spec fn same_toc(a: TocItem, b: TocItem) -> bool
    decreases b, 1int,
{
    &&& a.label@ == b.label@
    &&& a.href@ == b.href@
    &&& same_tocs(a.children@, b.children@)
}

/// Two entry lists of the same length whose entries are pairwise the same.
pub open spec fn same_tocs(a: Seq<TocItem>, b: Seq<TocItem>) -> bool
    decreases b, 0int,
{
    if a.len() != b.len() {
        false
    } else if b.len() == 0 {
        true
    } else {
        same_tocs(a.drop_last(), b.drop_last()) && same_toc(a.last(), b.last())
    }
}

/// A deep copy of a table-of-contents entry.
pub fn copy_toc(item: &TocItem) -> (r: TocItem)
    ensures
        same_toc(r, *item),
    decreases item,
{
    let mut children: Vec<TocItem> = Vec::new();
    let mut i: usize = 0;
    while i < item.children.len()
        invariant
            0 <= i <= item.children.len(),
            same_tocs(children@, item.children@.take(i as int)),
        decreases item.children.len() - i,
    {
        assert(decreases_to!(item => item.children@[i as int]));
        let c = copy_toc(&item.children[i]);
        let ghost prev = children@;
        children.push(c);
        assert(children@.drop_last() == prev);
        assert(item.children@.take(i + 1).drop_last() =~= item.children@.take(i as int));
        i += 1;
    }
    assert(item.children@.take(i as int) =~= item.children@);
    TocItem { label: item.label.clone(), href: item.href.clone(), children }
}

impl Clone for TocItem {
    fn clone(&self) -> (r: Self)
        ensures
            same_toc(r, *self),
    {
        copy_toc(self)
    }
}

} // verus!
