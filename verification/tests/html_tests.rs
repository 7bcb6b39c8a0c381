use epubthing::html::parse_html_segments;
use epubthing::resolve_path;
use epubthing::types::ContentSegment;

fn flattened_text(html: &str) -> String {
    parse_html_segments(html, "")
        .into_iter()
        .filter_map(|segment| match segment {
            ContentSegment::StyledText(spans) => {
                Some(spans.into_iter().map(|span| span.text).collect::<String>())
            }
            ContentSegment::Image { .. } => None,
        })
        .collect()
}

#[test]
fn resolves_relative_paths_and_parent_components() {
    assert_eq!(
        resolve_path("OEBPS/text", "../images/cover.jpg"),
        "OEBPS/images/cover.jpg"
    );
    assert_eq!(
        resolve_path("OEBPS/text", "./chapter.xhtml"),
        "OEBPS/text/chapter.xhtml"
    );
}

#[test]
fn strips_fragment_and_query_from_archive_paths() {
    assert_eq!(
        resolve_path("OEBPS", "text/chapter.xhtml#note-1?ignored=true"),
        "OEBPS/text/chapter.xhtml"
    );
    assert_eq!(
        resolve_path("OEBPS", "images/cover.jpg?cache=1#cover"),
        "OEBPS/images/cover.jpg"
    );
}

#[test]
fn decodes_encoded_path_components() {
    assert_eq!(
        resolve_path("OEBPS", "images/My%20Cover%20%28front%29.jpg"),
        "OEBPS/images/My Cover (front).jpg"
    );
}

#[test]
fn root_relative_paths_ignore_the_base() {
    assert_eq!(
        resolve_path("OEBPS/text", "/Images/cover.jpg"),
        "Images/cover.jpg"
    );
}

#[test]
fn preserves_spaces_between_inline_elements() {
    assert_eq!(
        flattened_text("<p>Hello <em>world</em>!</p>"),
        "Hello world!\n"
    );
}

#[test]
fn repairs_uppercase_spaced_characters_without_joining_normal_words() {
    assert_eq!(
        flattened_text("I C AN B E T HERE FOR M Y C HILDREN"),
        "I CAN BE THERE FOR MY CHILDREN"
    );
    assert_eq!(flattened_text("a b c"), "a b c");
}

#[test]
fn removes_definition_separator_slashes_and_keeps_blocks_separate() {
    let text = flattened_text(
        "<p>CHAPTER I</p><p>STREET EPISTEMOLOGY</p><p>t/</p><p>Noun: A public thoroughfare.</p><p>/</p><p>Noun: The study of knowledge.</p>",
    );
    assert!(!text.contains('/'));
    assert!(text.contains("Noun: A public thoroughfare."));
    assert!(text.contains("Noun: The study of knowledge."));
}

#[test]
fn accepts_whitespace_around_image_attributes() {
    let segments = parse_html_segments(
        "<p>Before</p><img alt='cover' src = \"images/cover%20art.jpg\" />",
        "OEBPS/text",
    );
    assert!(segments.iter().any(|segment| {
        matches!(segment, ContentSegment::Image { href } if href == "OEBPS/text/images/cover art.jpg")
    }));
}
