use epubthing::loading::{map_toc_entries, toc_label_map, StrMap};
use epubthing::resolve_path;
use epubthing::TocItem;

fn item(label: &str, href: &str, children: Vec<TocItem>) -> TocItem {
    TocItem {
        label: label.to_string(),
        href: href.to_string(),
        children,
    }
}

#[test]
fn label_map_prefers_first_label_per_href() {
    let toc = vec![item(
        "Moby Dick",
        "text/halftitlepage.xhtml",
        vec![item("I: Loomings", "text/chapter-1.xhtml", vec![])],
    )];
    let mut map = StrMap::new();
    toc_label_map(&toc, &mut map);
    assert_eq!(
        map.get("text/halftitlepage.xhtml").map(|s| s.as_str()),
        Some("Moby Dick")
    );
    assert_eq!(
        map.get("text/chapter-1.xhtml").map(|s| s.as_str()),
        Some("I: Loomings")
    );
}

#[test]
fn maps_toc_hrefs_to_chapter_indexes() {
    let toc = vec![item(
        "Moby Dick",
        "text/halftitlepage.xhtml",
        vec![item("I: Loomings", "text/chapter-1.xhtml", vec![])],
    )];
    let mut by_href: StrMap<usize> = StrMap::new();
    by_href.insert(resolve_path("", "text/halftitlepage.xhtml"), 2);
    by_href.insert(resolve_path("", "text/chapter-1.xhtml"), 3);

    let entries = map_toc_entries(&toc, &by_href);
    assert_eq!(entries.len(), 1);
    assert_eq!(entries[0].label, "Moby Dick");
    assert_eq!(entries[0].chapter, Some(2));
    assert_eq!(entries[0].children[0].label, "I: Loomings");
    assert_eq!(entries[0].children[0].chapter, Some(3));
}
