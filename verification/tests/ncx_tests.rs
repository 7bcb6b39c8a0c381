use epubthing::flatten_toc;
use epubthing::ncx::{parse_nav_html, parse_ncx};

const SAMPLE_NAV: &str = r#"<?xml version="1.0" encoding="utf-8"?>
<html xmlns="http://www.w3.org/1999/xhtml" xmlns:epub="http://www.idpf.org/2007/ops">
  <body>
    <nav epub:type="toc"><h1 id="toc-title">Table of Contents</h1>
      <ol>
        <li><a href="text/titlepage.xhtml">Titlepage</a></li>
        <li><a href="text/chapter-1.xhtml">I: Loomings</a></li>
        <li><a href="text/chapter-2.xhtml">II: The Carpetbag</a>
          <ol><li><a href="text/chapter-2.xhtml#a">Sub A</a></li></ol>
        </li>
      </ol>
    </nav>
    <nav epub:type="landmarks">
      <ol><li><a href="text/titlepage.xhtml">Begin Reading</a></li></ol>
    </nav>
  </body>
</html>
"#;

#[test]
fn parses_toc_nav_tree() {
    let items = parse_nav_html(SAMPLE_NAV);
    assert_eq!(items.len(), 3);
    assert_eq!(items[0].label, "Titlepage");
    assert_eq!(items[0].href, "text/titlepage.xhtml");
    assert_eq!(items[1].label, "I: Loomings");
    assert_eq!(items[2].label, "II: The Carpetbag");
    assert!(items[2].children.len() == 1, "nested entries should be children");
    assert_eq!(items[2].children[0].label, "Sub A");
    assert_eq!(items[2].children[0].href, "text/chapter-2.xhtml#a");
    assert_eq!(flatten_toc(&items).len(), 4);
}

#[test]
fn ignores_landmarks_nav() {
    let items = parse_nav_html(SAMPLE_NAV);
    assert!(items.iter().all(|i| i.label != "Begin Reading"));
}

const SAMPLE_NAV_SPAN: &str = r#"
<nav epub:type="toc"><ol>
  <li><a href="text/chapter-1.xhtml"><span epub:type="z3998:roman">I</span>: Loomings</a></li>
  <li><a href="text/chapter-2.xhtml">An <em>Emphasised</em> Title</a></li>
</ol></nav>
"#;

#[test]
fn nav_labels_collect_inline_markup() {
    let items = parse_nav_html(SAMPLE_NAV_SPAN);
    assert_eq!(items.len(), 2);
    assert_eq!(items[0].label, "I: Loomings");
    assert_eq!(items[1].label, "An Emphasised Title");
}

const SAMPLE_NCX: &str = r#"<?xml version="1.0" encoding="utf-8"?>
<ncx xmlns="http://www.daisy.org/z3986/2005/ncx/" version="2005-1">
  <navMap>
    <navPoint id="np-1" playOrder="1">
      <navLabel><text>Titlepage</text></navLabel>
      <content src="text/titlepage.xhtml"/>
    </navPoint>
    <navPoint id="np-2" playOrder="2">
      <navLabel><text>Moby Dick</text></navLabel>
      <content src="text/halftitlepage.xhtml"/>
      <navPoint id="np-3" playOrder="3">
        <navLabel><text>I: Loomings</text></navLabel>
        <content src="text/chapter-1.xhtml"/>
      </navPoint>
      <navPoint id="np-4" playOrder="4">
        <navLabel><text>II: The Carpetbag</text></navLabel>
        <content src="text/chapter-2.xhtml"/>
      </navPoint>
    </navPoint>
  </navMap>
</ncx>
"#;

#[test]
fn parses_ncx_tree() {
    let items = parse_ncx(SAMPLE_NCX);
    assert_eq!(items.len(), 2);
    assert_eq!(items[0].label, "Titlepage");
    assert_eq!(items[0].href, "text/titlepage.xhtml");
    assert_eq!(items[1].label, "Moby Dick");
    assert_eq!(items[1].href, "text/halftitlepage.xhtml");
    assert_eq!(items[1].children.len(), 2);
    assert_eq!(items[1].children[0].label, "I: Loomings");
    assert_eq!(items[1].children[0].href, "text/chapter-1.xhtml");
    assert_eq!(flatten_toc(&items).len(), 4);
}

#[test]
fn flatten_toc_depth_first() {
    let items = parse_nav_html(SAMPLE_NAV);
    let flat = flatten_toc(&items);
    let labels: Vec<&str> = flat.iter().map(|i| i.label.as_str()).collect();
    assert_eq!(
        labels,
        vec![
            "Titlepage",
            "I: Loomings",
            "II: The Carpetbag",
            "Sub A"
        ]
    );
}
