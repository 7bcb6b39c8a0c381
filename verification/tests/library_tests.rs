use std::io::Write;
use std::sync::atomic::AtomicBool;

use epubthing::config::{default_true, font_families, font_index, TextAlign};
use epubthing::conversation::{conversation_filename, filename_from_stem, ConversationMessage};
use epubthing::html::parse_html_segments;
use epubthing::loading::{load_incremental, Chapter, StrMap};
use epubthing::markdown::rewrite_links_and_images_checked;
use epubthing::opf::{find_nav_href, find_ncx_href, parse_container, parse_metadata, parse_opf};
use epubthing::reader::{chapter_markdown, guess_mime, is_svg_uri, render_markdown};
use epubthing::document::parent_dir;
use epubthing::search::{
    build_flat_text, find_matches, format_reading_time, recompute, search_can_run,
    try_recompute, word_count,
    ChapterSearchData, SearchState, ACTIVE_MATCH_COLOR, MATCH_COLOR,
};
use epubthing::session::{
    add_recent_file, clamp_selection, filter_labels, filter_recent_files, filter_recent_names, is_epub_drop,
    load_error_message, remove_recent_file, restored_chapter, Keys, Panels,
};
use epubthing::xml::{read_events, XmlEvent};
use epubthing::{
    first_heading_text, resolve_path, rewrite_links_and_images, strip_raw_html, trim_leading_blank_lines, ContentSegment,
    EpubDocument, StyledSpan,
};

fn span(text: &str) -> StyledSpan {
    StyledSpan::new(text.to_string(), false, false, false, 0)
}

fn chapter_segments() -> Vec<ContentSegment> {
    vec![
        ContentSegment::StyledText(vec![span("Call me "), span("Ishmael. Call")]),
        ContentSegment::Image { href: "images/whale.png".to_string() },
        ContentSegment::StyledText(vec![span(" me maybe")]),
    ]
}

fn segment_text(segs: &[ContentSegment]) -> String {
    let mut s = String::new();
    for seg in segs {
        if let ContentSegment::StyledText(spans) = seg {
            for sp in spans {
                s.push_str(&sp.text);
            }
        }
    }
    s
}

// ─── Paths ───────────────────────────────────────────────────────────────

#[test]
fn root_relative_href_resolves_the_same_from_any_base() {
    assert_eq!(resolve_path("a/b", "/x/y.html"), resolve_path("c", "/x/y.html"));
    assert_eq!(resolve_path("a/b", "/x/y.html"), "x/y.html");
}

#[test]
fn query_and_fragment_do_not_change_the_path() {
    assert_eq!(resolve_path("OEBPS", "t/c.xhtml?x=1#y"), resolve_path("OEBPS", "t/c.xhtml"));
}

#[test]
fn parent_components_never_climb_above_the_root() {
    assert_eq!(resolve_path("", "../../a.xhtml"), "a.xhtml");
    assert_eq!(resolve_path("a", "b/../../../c"), "c");
}

#[test]
fn invalid_escapes_are_kept_and_invalid_utf8_is_replaced() {
    assert_eq!(resolve_path("", "a%2"), "a%2");
    assert_eq!(resolve_path("", "a%zz"), "a%zz");
    assert_eq!(resolve_path("", "a%FFb"), "a\u{fffd}b");
}

// ─── Markdown ────────────────────────────────────────────────────────────

#[test]
fn plain_markdown_is_not_changed_by_stripping() {
    let md = "# Title\n\nSome *text* (with) [a](b) & more.\n";
    assert_eq!(strip_raw_html(md), md);
}

#[test]
fn a_lone_angle_bracket_is_kept() {
    assert_eq!(strip_raw_html("1 < 2 and <b>bold</b>"), "1 < 2 and bold");
}

#[test]
fn link_hooks_lead_to_spine_chapters_or_the_current_one() {
    let md = "[a](c1.xhtml) [b](c2.xhtml#x) [c](nowhere.xhtml)\n";
    let hrefs = vec!["text/c1.xhtml".to_string(), "text/c2.xhtml".to_string()];
    let (_, targets) = rewrite_links_and_images(md, "text", &hrefs, 5);
    assert_eq!(
        targets,
        vec![
            ("c1.xhtml".to_string(), 0),
            ("c2.xhtml#x".to_string(), 1),
            ("nowhere.xhtml".to_string(), 5)
        ]
    );
}

#[test]
fn checked_rewrite_refuses_a_link_that_ends_the_text() {
    assert!(rewrite_links_and_images_checked("see [x](", "", &[], 0).is_none());
    let ok = rewrite_links_and_images_checked("see [x](a.xhtml)", "", &[], 0).unwrap();
    assert_eq!(ok.0, "see [x](a.xhtml)");
    assert_eq!(ok.1, vec![("a.xhtml".to_string(), 0)]);
}

#[test]
fn converted_chapter_markdown_is_cleaned_and_rewritten() {
    let chapters = vec![
        Chapter {
            label: "One".to_string(),
            href: "text/c1.xhtml".to_string(),
            html: "<h1>Title</h1><p>Go <a href=\"c2.xhtml\">on</a>.</p>".to_string(),
        },
        Chapter {
            label: "Two".to_string(),
            href: "text/c2.xhtml".to_string(),
            html: "<p>Two</p>".to_string(),
        },
    ];
    let (md, hooks) = chapter_markdown(&chapters, 0).unwrap();
    assert!(md.contains("Title"), "{md}");
    assert!(!md.contains("<h1>"), "{md}");
    assert_eq!(hooks, vec![("c2.xhtml".to_string(), 1)]);
    assert!(chapter_markdown(&chapters, 2).is_none());
}

#[test]
fn rendering_drops_leading_blank_lines_and_raw_html() {
    let (md, hooks) = render_markdown("\n\n<a id=\"x\"></a>\n# T\n", "", &[], 0);
    assert_eq!(md, "# T\n");
    assert!(hooks.is_empty());
}

// ─── HTML ────────────────────────────────────────────────────────────────

#[test]
fn first_heading_gives_a_chapter_title() {
    assert_eq!(
        first_heading_text("<p>intro</p><h2>  The Carpet-Bag </h2><p>text</p>"),
        Some("The Carpet-Bag".to_string())
    );
    assert_eq!(first_heading_text("<p>no heading</p>"), None);
}

#[test]
fn segments_resolve_images_against_the_base() {
    let segs = parse_html_segments("<p>x</p><img src=\"../i/a.png\"/>", "OEBPS/text");
    assert!(segs
        .iter()
        .any(|s| matches!(s, ContentSegment::Image { href } if href == "OEBPS/i/a.png")));
}

// ─── Search ──────────────────────────────────────────────────────────────

#[test]
fn flat_text_and_word_count() {
    let segs = chapter_segments();
    assert_eq!(build_flat_text(&segs), "Call me Ishmael. Call me maybe");
    assert_eq!(word_count(&segs), 6);
}

#[test]
fn reading_times_are_formatted() {
    assert_eq!(format_reading_time(0), "less than 1m");
    assert_eq!(format_reading_time(45), "45m");
    assert_eq!(format_reading_time(60), "1h");
    assert_eq!(format_reading_time(125), "2h 5m");
}

#[test]
fn matches_ignore_case_unless_asked() {
    assert_eq!(find_matches("Call me, call", "call", false, false), vec![(0, 4), (9, 13)]);
    assert_eq!(find_matches("Call me, call", "call", true, false), vec![(9, 13)]);
    assert_eq!(find_matches("Call me", "", false, false), Vec::<(usize, usize)>::new());
}

#[test]
fn whole_word_matches_skip_parts_of_words() {
    assert_eq!(find_matches("call recall calling call", "call", false, true), vec![(0, 4), (20, 24)]);
}

#[test]
fn match_ranges_count_characters_not_bytes() {
    assert_eq!(find_matches("é call", "call", false, false), vec![(2, 6)]);
}

#[test]
fn non_ascii_matches_are_character_ranges() {
    assert_eq!(find_matches("éé", "é", true, false), vec![(0, 1), (1, 2)]);
    assert_eq!(find_matches("xéa", "éa", true, false), vec![(1, 3)]);
    assert_eq!(find_matches("ÉCOLE école", "éc", false, false), vec![(0, 2), (6, 8)]);
    assert_eq!(find_matches("ab", "b", true, false), vec![(1, 2)]);
}

#[test]
fn highlighting_keeps_the_text_and_colors_the_matches() {
    let segs = chapter_segments();
    let chapter = ChapterSearchData { segments: &segs };
    let mut state = SearchState::default();
    state.query = "call".to_string();
    state.dirty = true;
    recompute(&mut state, &chapter);
    assert_eq!(state.matches, vec![(0, 4), (17, 21)]);
    assert_eq!(state.active, 0);
    let hl = state.highlighted_segments.clone().unwrap();
    assert_eq!(segment_text(&hl), segment_text(&segs));
    let colored: Vec<(String, Option<[u8; 4]>)> = hl
        .iter()
        .filter_map(|s| match s {
            ContentSegment::StyledText(spans) => Some(spans.clone()),
            _ => None,
        })
        .flatten()
        .filter(|sp| sp.color.is_some())
        .map(|sp| (sp.text.clone(), sp.color))
        .collect();
    assert_eq!(
        colored,
        vec![("Call".to_string(), Some(ACTIVE_MATCH_COLOR)), ("Call".to_string(), Some(MATCH_COLOR))]
    );
}

#[test]
fn next_and_previous_match_wrap_around() {
    let segs = chapter_segments();
    let chapter = ChapterSearchData { segments: &segs };
    let mut state = SearchState::default();
    state.query = "me".to_string();
    state.dirty = true;
    assert!(state.next_match(&chapter));
    assert_eq!(state.matches.len(), 2);
    assert_eq!(state.active, 1);
    assert!(state.next_match(&chapter));
    assert_eq!(state.active, 0);
    assert!(state.prev_match(&chapter));
    assert_eq!(state.active, 1);
    assert!(state.next_match(&chapter));
    assert_eq!(state.active, 0);
    assert!(state.need_scroll);
    state.close();
    assert!(!state.show);
    assert!(state.matches.is_empty());
    assert!(state.highlighted_segments.is_none());
    assert!(!state.next_match(&chapter));
}

#[test]
fn only_the_active_match_is_highlighted_when_asked() {
    let segs = chapter_segments();
    let chapter = ChapterSearchData { segments: &segs };
    let mut state = SearchState::default();
    state.query = "call".to_string();
    state.highlight_all = false;
    state.dirty = true;
    recompute(&mut state, &chapter);
    let hl = state.highlighted_segments.clone().unwrap();
    let n_colored = hl
        .iter()
        .filter_map(|s| match s {
            ContentSegment::StyledText(spans) => Some(spans.clone()),
            _ => None,
        })
        .flatten()
        .filter(|sp| sp.color.is_some())
        .count();
    assert_eq!(n_colored, 1);
    state.highlight_all = true;
    state.refresh_highlights(&chapter);
    assert_eq!(segment_text(&state.highlighted_segments.clone().unwrap()), segment_text(&segs));
}

// ─── Reader state ────────────────────────────────────────────────────────

#[test]
fn recent_files_move_to_the_front_once_and_stay_bounded() {
    let mut files: Vec<String> = (0..25).map(|i| format!("book{i}.epub")).collect();
    add_recent_file(&mut files, "book3.epub");
    assert_eq!(files[0], "book3.epub");
    assert_eq!(files.len(), 20);
    assert_eq!(files.iter().filter(|f| *f == "book3.epub").count(), 1);
    remove_recent_file(&mut files, "book3.epub");
    assert!(!files.iter().any(|f| f == "book3.epub"));
    assert_eq!(files[0], "book0.epub");
}

#[test]
fn selections_and_restored_chapters_stay_in_range() {
    assert_eq!(clamp_selection(7, 3), 2);
    assert_eq!(clamp_selection(1, 3), 1);
    assert_eq!(clamp_selection(5, 0), 0);
    assert_eq!(restored_chapter(true, Some(9), 4), 3);
    assert_eq!(restored_chapter(true, Some(1), 4), 1);
    assert_eq!(restored_chapter(false, Some(1), 4), 0);
    assert_eq!(restored_chapter(true, None, 4), 0);
}

#[test]
fn search_lists_filter_by_lowercase_name() {
    let flat = vec![("Loomings".to_string(), 1), ("The Carpet-Bag".to_string(), 2)];
    assert_eq!(filter_labels(&flat, "CARPET"), vec![("The Carpet-Bag".to_string(), 2)]);
    assert_eq!(filter_labels(&flat, ""), flat);
    let files = vec!["/home/Moby.epub".to_string(), "/moby/other.epub".to_string()];
    assert_eq!(filter_recent_files(&files, "MOBY"), vec![0]);
    assert_eq!(filter_recent_files(&files, ""), vec![0, 1]);
}

#[test]
fn mime_types_follow_the_extension() {
    assert_eq!(guess_mime("images/a.PNG"), Some("image/png".to_string()));
    assert_eq!(guess_mime("b.jpeg"), Some("image/jpeg".to_string()));
    assert_eq!(guess_mime("c.tiff"), Some("image/tiff".to_string()));
    assert_eq!(guess_mime("noext"), Some("image/noext".to_string()));
    assert!(is_svg_uri("epub://x/Y.SVG"));
    assert!(!is_svg_uri("epub://x/y.png"));
}

#[test]
fn settings_values() {
    assert!(default_true());
    assert_eq!(TextAlign::default(), TextAlign::Left);
    assert_eq!(TextAlign::Center.label(), "Center");
    assert_eq!(font_families().len(), 13);
    assert_eq!(font_index("Inter"), Some(3));
    assert_eq!(font_index("Comic Sans"), None);
}

#[test]
fn string_maps_read_back_what_was_written() {
    let mut m: StrMap<usize> = StrMap::new();
    m.insert("a".to_string(), 1);
    m.insert("b".to_string(), 2);
    m.insert("a".to_string(), 3);
    assert_eq!(m.get("a"), Some(&3));
    assert_eq!(m.get("b"), Some(&2));
    assert_eq!(m.get("c"), None);
    m.insert_if_absent("b".to_string(), 9);
    assert_eq!(m.get("b"), Some(&2));
}

// ─── Conversation ────────────────────────────────────────────────────────

#[test]
fn conversation_files_are_named_after_the_book() {
    assert_eq!(conversation_filename("/books/My Book.epub"), "My_Book.json");
    assert_eq!(conversation_filename("/books/moby-dick_v2.epub"), "moby-dick_v2.json");
    assert_eq!(conversation_filename(""), "unknown.json");
    assert_eq!(filename_from_stem(Some("a/b".to_string())), "a_b.json");
}

#[test]
fn messages_carry_their_time_and_kind() {
    let m = ConversationMessage::new_at("hi".to_string(), true, 3, 1234, 1);
    assert_eq!(m.id, "1234");
    assert_eq!(m.timestamp, 1);
    assert!(m.is_highlight && !m.is_me_message);
    let me = ConversationMessage::new_me("yo".to_string(), 2);
    assert!(me.is_me_message);
    assert!(me.id.chars().all(|c| c.is_ascii_digit()));
    assert!(me.timestamp > 0);
    let author = ConversationMessage::new_author("hey".to_string(), 2);
    assert!(!author.is_me_message && !author.is_highlight);
    let zero = ConversationMessage { timestamp: 0, ..author.clone() };
    assert_eq!(zero.formatted_timestamp(), None);
    assert!(author.formatted_timestamp().is_some());
}

// ─── Package files ───────────────────────────────────────────────────────

const CONTAINER: &str = r#"<?xml version="1.0"?>
<container version="1.0" xmlns="urn:oasis:names:tc:opendocument:xmlns:container">
  <rootfiles>
    <rootfile full-path="other.xml" media-type="text/plain"/>
    <rootfile full-path="OEBPS/content.opf" media-type="application/oebps-package+xml"/>
  </rootfiles>
</container>"#;

const OPF: &str = r#"<?xml version="1.0" encoding="utf-8"?>
<package xmlns="http://www.idpf.org/2007/opf" version="3.0">
  <metadata xmlns:dc="http://purl.org/dc/elements/1.1/">
    <dc:title>Moby Dick</dc:title>
    <meta property="x">ignored</meta>
    <dc:title>Second Title</dc:title>
    <dc:creator>Herman Melville</dc:creator>
    <dc:language> en-US </dc:language>
  </metadata>
  <manifest>
    <item id="c1" href="text/c1.xhtml" media-type="application/xhtml+xml"/>
    <item id="c2" href="text/c2.xhtml" media-type="application/xhtml+xml"/>
    <item id="ncx" href="toc.ncx" media-type="application/x-dtbncx+xml"/>
    <item id="nav" href="nav.xhtml" properties="nav scripted"/>
    <item id="img" href="images/a.png" media-type="image/png"/>
  </manifest>
  <spine>
    <itemref idref="c1"/>
    <itemref idref="missing"/>
    <itemref idref="c2"/>
  </spine>
</package>"#;

const NCX: &str = r#"<ncx><navMap>
  <navPoint><navLabel><text>First</text></navLabel><content src="text/c1.xhtml"/></navPoint>
  <navPoint><navLabel><text>Chapter Two</text></navLabel><content src="text/c2.xhtml"/></navPoint>
</navMap></ncx>"#;

#[test]
fn container_names_the_package_file() {
    assert_eq!(parse_container(CONTAINER), Ok("OEBPS/content.opf".to_string()));
    assert_eq!(
        parse_container("<container><rootfiles></rootfiles></container>"),
        Err("No rootfile found in container.xml".to_string())
    );
    assert_eq!(
        parse_container("<container></container>"),
        Err("Error parsing container.xml".to_string())
    );
    assert_eq!(
        parse_container("<container><rootfiles><rootfile full-path=\"a\"/></rootfiles></container>"),
        Err("Error parsing container.xml".to_string())
    );
}

#[test]
fn package_metadata_and_reading_order() {
    let m = parse_metadata(OPF).unwrap();
    assert_eq!(m.title, "Moby Dick");
    assert_eq!(m.creator.as_deref(), Some("Herman Melville"));
    assert_eq!(m.language.as_deref(), Some("en-US"));
    assert_eq!(m.publisher, None);
    let (meta, spine) = parse_opf(OPF).unwrap();
    assert_eq!(meta.title, "Moby Dick");
    assert_eq!(spine.len(), 2);
    assert_eq!(spine[0].id, "c1");
    assert_eq!(spine[1].href, "text/c2.xhtml");
    assert_eq!(find_ncx_href(OPF), Some("toc.ncx".to_string()));
    assert_eq!(find_nav_href(OPF), Some("nav.xhtml".to_string()));
    assert_eq!(parse_opf("<package><manifest><item href=\"a\"/></manifest></package>").err(), Some("Error parsing OPF file".to_string()));
    assert_eq!(parse_metadata("<a><b></a>").err(), Some("Error parsing OPF metadata".to_string()));
}

#[test]
fn xml_events_end_at_the_end_or_an_error() {
    let evs = read_events("<a x=\"1&amp;2\">t</a>", true);
    assert!(matches!(evs.last(), Some(XmlEvent::Eof)));
    match &evs[0] {
        XmlEvent::Start(t) => {
            assert_eq!(t.name, "a");
            assert_eq!(t.attrs[0].raw, "1&amp;2");
            assert_eq!(t.attrs[0].value.as_deref(), Some("1&2"));
        }
        _ => panic!("expected a start tag"),
    }
    let bad = read_events("<a></b>", true);
    assert!(matches!(bad.last(), Some(XmlEvent::Error)));
}

fn epub_bytes(with_ncx: bool) -> Vec<u8> {
    let mut w = zip::ZipWriter::new(std::io::Cursor::new(Vec::new()));
    let opts = zip::write::SimpleFileOptions::default();
    w.start_file("META-INF/container.xml", opts).unwrap();
    w.write_all(CONTAINER.as_bytes()).unwrap();
    w.start_file("OEBPS/content.opf", opts).unwrap();
    w.write_all(OPF.as_bytes()).unwrap();
    if with_ncx {
        w.start_file("OEBPS/toc.ncx", opts).unwrap();
        w.write_all(NCX.as_bytes()).unwrap();
    }
    w.start_file("OEBPS/text/c1.xhtml", opts).unwrap();
    w.write_all(b"<html><body><h1>Loomings</h1><p>Call me Ishmael.</p><img src=\"../images/a.png\"/></body></html>").unwrap();
    w.start_file("OEBPS/text/c2.xhtml", opts).unwrap();
    w.write_all(b"<html><body><h2>The Carpet-Bag</h2><p>I stuffed.</p></body></html>").unwrap();
    w.start_file("OEBPS/images/a.png", opts).unwrap();
    w.write_all(&[137, 80, 78, 71]).unwrap();
    w.finish().unwrap().into_inner()
}

#[test]
fn documents_open_from_bytes() {
    let mut doc = EpubDocument::from_bytes(epub_bytes(true)).unwrap();
    assert_eq!(doc.metadata.title, "Moby Dick");
    assert_eq!(doc.spine.len(), 2);
    assert_eq!(doc.toc.len(), 2);
    assert_eq!(doc.toc[1].label, "Chapter Two");
    assert!(doc.get_content("text/c1.xhtml").unwrap().contains("Ishmael"));
    assert_eq!(doc.get_text_content("text/c2.xhtml").unwrap(), "The Carpet-Bag\nI stuffed.");
    assert_eq!(doc.get_asset("images/a.png").unwrap(), vec![137, 80, 78, 71]);
    assert_eq!(doc.get_image_bytes("OEBPS/images/a.png").unwrap(), vec![137, 80, 78, 71]);
    assert_eq!(doc.get_image_bytes("./OEBPS/text/../images/a.png").unwrap(), vec![137, 80, 78, 71]);
    assert_eq!(
        doc.get_image_bytes("images/a.png").err(),
        Some("Asset not found: images/a.png".to_string())
    );
    assert_eq!(
        doc.get_content("text/none.xhtml").err(),
        Some("File not found: OEBPS/text/none.xhtml".to_string())
    );
    assert_eq!(
        doc.get_asset("none.png").err(),
        Some("Asset not found: OEBPS/none.png".to_string())
    );
    let segs = doc.get_content_segments("text/c1.xhtml").unwrap();
    assert!(segs
        .iter()
        .any(|s| matches!(s, ContentSegment::Image { href } if href == "images/a.png")));
}

#[test]
fn documents_without_an_ncx_list_the_spine() {
    let doc = EpubDocument::from_bytes(epub_bytes(false)).unwrap();
    assert_eq!(doc.toc.len(), 2);
    assert_eq!(doc.toc[0].label, "c1");
    assert_eq!(doc.toc[1].href, "text/c2.xhtml");
}

#[test]
fn bytes_that_are_no_archive_are_refused() {
    assert_eq!(
        EpubDocument::from_bytes(vec![1, 2, 3]).err(),
        Some("Could not open ZIP archive (EPUB)".to_string())
    );
    let mut w = zip::ZipWriter::new(std::io::Cursor::new(Vec::new()));
    w.start_file("a.txt", zip::write::SimpleFileOptions::default()).unwrap();
    w.write_all(b"x").unwrap();
    let bytes = w.finish().unwrap().into_inner();
    assert_eq!(
        EpubDocument::from_bytes(bytes).err(),
        Some("container.xml not found in EPUB".to_string())
    );
}

#[test]
fn loading_reads_every_chapter_and_titles_unnamed_ones() {
    let mut doc = EpubDocument::from_bytes(epub_bytes(true)).unwrap();
    let cancel = AtomicBool::new(false);
    let book = load_incremental(&mut doc, &cancel).unwrap();
    assert_eq!(book.title, "Moby Dick");
    assert_eq!(book.author, "Herman Melville");
    assert_eq!(book.chapters.len(), 2);
    assert_eq!(book.chapters[0].label, "First");
    assert_eq!(book.chapters[1].label, "The Carpet-Bag");
    assert_eq!(book.toc[1].chapter, Some(1));
    let stop = AtomicBool::new(true);
    assert_eq!(load_incremental(&mut doc, &stop).err(), Some("Cancelled".to_string()));
}

#[test]
fn cancelled_loads_show_no_error() {
    assert_eq!(load_error_message("Cancelled"), None);
    assert_eq!(load_error_message("bad zip"), Some("Error: bad zip".to_string()));
}

#[test]
fn dropped_files_are_books_by_extension_or_name() {
    assert!(is_epub_drop(Some("EPUB"), "anything"));
    assert!(is_epub_drop(None, "Moby.Dick.EPub"));
    assert!(!is_epub_drop(Some("pdf"), "book.pdf"));
    assert!(!is_epub_drop(None, "epub"));
}

fn closed_panels() -> Panels {
    Panels {
        show_help: true,
        show_settings: false,
        show_recent: false,
        show_toc_window: false,
        show_conversation: false,
        recent_search: "old".to_string(),
        recent_selection: 4,
        recent_needs_focus: false,
        recent_scroll_to_sel: false,
        toc_window_search: "x".to_string(),
        toc_window_selection: 2,
        toc_window_needs_focus: false,
        toc_window_scroll_to_sel: false,
        config_dirty: false,
    }
}

fn no_keys() -> Keys {
    Keys {
        escape: false,
        settings: false,
        recent: false,
        toc: false,
        conversation: false,
        open: false,
        down: false,
        up: false,
    }
}

#[test]
fn shortcuts_open_recent_files_afresh_and_move_the_selection() {
    let mut p = closed_panels();
    let mut k = no_keys();
    k.recent = true;
    k.down = true;
    assert!(!p.on_keys(k));
    assert!(p.show_recent);
    assert_eq!(p.recent_search, "");
    assert_eq!(p.recent_selection, 1);
    assert!(p.recent_needs_focus);
    assert!(p.recent_scroll_to_sel);
    assert!(p.show_help);
    let mut k = no_keys();
    k.up = true;
    k.up = true;
    p.on_keys(k);
    assert_eq!(p.recent_selection, 0);
    p.on_keys(k);
    assert_eq!(p.recent_selection, 0);
}

#[test]
fn escape_closes_dialogs_and_ctrl_o_asks_for_a_file() {
    let mut p = closed_panels();
    p.show_settings = true;
    p.show_recent = true;
    let mut k = no_keys();
    k.escape = true;
    k.open = true;
    k.conversation = true;
    assert!(p.on_keys(k));
    assert!(!p.show_help && !p.show_settings && !p.show_recent);
    assert!(p.show_conversation);
    assert!(p.config_dirty);
    let mut k = no_keys();
    k.toc = true;
    p.on_keys(k);
    assert!(p.show_toc_window);
    assert_eq!(p.toc_window_selection, 0);
    assert_eq!(p.toc_window_search, "");
    p.on_keys(k);
    assert!(!p.show_toc_window);
}

#[test]
fn trimming_blank_lines_twice_changes_nothing() {
    let md = " \n\u{a0}\t\n   Indented text\n\nMore\n";
    let once = trim_leading_blank_lines(md);
    assert_eq!(once, "   Indented text\n\nMore\n");
    assert_eq!(trim_leading_blank_lines(&once), once);
    assert_eq!(trim_leading_blank_lines(" \n \t"), " \t");
}

#[test]
fn search_matches_come_in_reading_order() {
    let m = find_matches("aaaa — aa", "aa", false, false);
    assert_eq!(m, vec![(0, 2), (1, 3), (2, 4), (7, 9)]);
    for w in m.windows(2) {
        assert!(w[0].0 < w[1].0);
    }
    for r in &m {
        assert!(r.0 <= r.1);
    }
}

#[test]
fn timestamps_read_as_day_and_time() {
    let m = ConversationMessage::new_at("x".to_string(), false, 0, 1, 1_700_000_000);
    let t = m.formatted_timestamp().unwrap();
    let c: Vec<char> = t.chars().collect();
    assert_eq!(c.len(), 18);
    assert_eq!((c[2], c[5], c[10], c[11], c[12], c[15]), ('/', '/', ' ', '-', ' ', ':'));
    for (i, ch) in c.iter().enumerate() {
        if ![2, 5, 10, 11, 12, 15].contains(&i) {
            assert!(ch.is_ascii_digit());
        }
    }
    assert!(t.contains("/2023 - "));
}

#[test]
fn list_elements_apart_are_refused() {
    assert_eq!(
        parse_container(
            "<container><rootfiles><rootfile full-path=\"a.opf\" media-type=\"x\"/><other/><rootfile full-path=\"b.opf\" media-type=\"x\"/></rootfiles></container>"
        ),
        Err("Error parsing container.xml".to_string())
    );
    assert_eq!(
        parse_container(
            "<container><rootfiles>\n  <rootfile full-path=\"a.opf\" media-type=\"x\"/>\n  <!-- c -->\n  <rootfile full-path=\"b.opf\" media-type=\"x\"/>\n</rootfiles></container>"
        ),
        Ok("a.opf".to_string())
    );
    assert_eq!(
        parse_container(
            "<container><rootfiles><rootfile full-path=\"a.opf\" media-type=\"x\"/></rootfiles><rootfiles/></container>"
        ),
        Err("Error parsing container.xml".to_string())
    );
    let apart = "<package><manifest><item id=\"a\" href=\"a.xhtml\"/><link/><item id=\"b\" href=\"b.xhtml\"/></manifest><spine><itemref idref=\"a\"/></spine></package>";
    assert_eq!(parse_opf(apart).err(), Some("Error parsing OPF file".to_string()));
    assert_eq!(find_ncx_href(apart), None);
    let twice = "<package><manifest><item id=\"a\" href=\"a.xhtml\"/></manifest><spine/><spine/></package>";
    assert_eq!(parse_opf(twice).err(), Some("Error parsing OPF file".to_string()));
    let fine = "<package><manifest>\n<item id=\"a\" href=\"a.xhtml\"/>\n<item id=\"b\" href=\"b.xhtml\"/>\n</manifest><spine><itemref idref=\"b\"/></spine></package>";
    let (_, spine) = parse_opf(fine).unwrap();
    assert_eq!(spine.len(), 1);
    assert_eq!(spine[0].href, "b.xhtml");
}

#[test]
fn archive_directories_end_at_the_last_slash() {
    assert_eq!(parent_dir("OEBPS/content.opf"), "OEBPS");
    assert_eq!(parent_dir("a/b/c.xhtml"), "a/b");
    assert_eq!(parent_dir("content.opf"), "");
    assert_eq!(parent_dir("a/b/"), "a");
    assert_eq!(parent_dir("a//b"), "a");
    assert_eq!(parent_dir("b/"), "");
    assert_eq!(parent_dir("a/b/."), "a");
    assert_eq!(parent_dir("OEBPS/./content.opf"), "OEBPS");
    assert_eq!(parent_dir("./a"), ".");
    assert_eq!(parent_dir("/a"), "/");
    assert_eq!(parent_dir("/"), "");
}

#[test]
fn recent_files_filter_by_their_names() {
    let names = vec!["Moby Dick.epub".to_string(), "Walden.epub".to_string()];
    assert_eq!(filter_recent_names(&names, "DICK"), vec![0]);
    assert_eq!(filter_recent_names(&names, ""), vec![0, 1]);
    assert_eq!(filter_recent_names(&names, "zzz"), Vec::<usize>::new());
    let files = vec!["Moby Dick.epub".to_string()];
    assert_eq!(filter_recent_files(&files, "moby"), vec![0]);
    assert_eq!(conversation_filename("My Book"), "My_Book.json");
}

#[test]
fn checked_search_runs_only_where_it_can() {
    let segs = vec![ContentSegment::StyledText(vec![span("\u{e9}\u{e9}")])];
    let chapter = ChapterSearchData { segments: &segs };
    let mut state = SearchState::default();
    state.query = "\u{e9}".to_string();
    state.dirty = true;
    assert!(search_can_run(&state, &chapter));
    assert!(try_recompute(&mut state, &chapter));
    assert_eq!(state.matches, vec![(0, 1), (1, 2)]);
    assert_eq!(state.try_next_match(&chapter), Some(true));
    assert_eq!(state.active, 1);
    let mut state = SearchState::default();
    state.dirty = true;
    let segs = chapter_segments();
    let chapter = ChapterSearchData { segments: &segs };
    state.query = "call".to_string();
    assert!(search_can_run(&state, &chapter));
    assert!(try_recompute(&mut state, &chapter));
    assert!(!state.dirty);
    assert!(!state.matches.is_empty());
    let before = state.active;
    assert_eq!(state.try_next_match(&chapter), Some(true));
    assert_eq!(state.try_prev_match(&chapter), Some(true));
    assert_eq!(state.active, before);
}

#[test]
fn ascii_search_ignores_case_by_ascii_folding() {
    assert_eq!(find_matches("Call CALL call", "cAlL", false, false), vec![(0, 4), (5, 9), (10, 14)]);
}

#[test]
fn resolved_paths_are_canonical_and_stable() {
    let r = resolve_path("OEBPS//text/.", "../images/./a.png?v=1#top");
    assert_eq!(r, "OEBPS/images/a.png");
    assert_eq!(resolve_path("", &r), r);
    assert!(r.split('/').all(|c| !c.is_empty() && c != "." && c != ".."));
    assert_eq!(resolve_path("OEBPS/text", "/cover.xhtml"), resolve_path("", "/cover.xhtml"));
    assert_eq!(resolve_path("a", "../../.."), "");
}

#[test]
fn book_paths_give_their_file_stem_and_name() {
    assert_eq!(conversation_filename("/home/u/book.epub"), "book.json");
    assert_eq!(conversation_filename("dir/archive.tar.gz"), "archive_tar.json");
    assert_eq!(conversation_filename("a/b/.hidden"), "_hidden.json");
    let files = vec!["/books/Moby.epub".to_string(), "/moby/walden.epub".to_string()];
    assert_eq!(filter_recent_files(&files, "moby"), vec![0]);
    assert_eq!(filter_recent_files(&files, "books"), Vec::<usize>::new());
}

#[test]
fn timestamps_name_their_own_moment() {
    let m = ConversationMessage::new_at("x".to_string(), false, 0, 1, 1_700_000_000);
    let t = m.formatted_timestamp().unwrap();
    assert!(["13/11/2023", "14/11/2023", "15/11/2023"].contains(&&t[..10]));
    let early = ConversationMessage::new_at("x".to_string(), false, 0, 1, 1);
    let e = early.formatted_timestamp().unwrap();
    assert!(e.starts_with("01/01/1970") || e.starts_with("31/12/1969"));
}
