use epubthing::spike::{
    fix_spaced_chars, heal_markdown, remove_definition_separators, rewrite_links_and_images, strip_raw_html,
};

#[test]
fn repairs_spaced_uppercase_words() {
    assert_eq!(
        fix_spaced_chars("I C AN B E T HERE FOR M Y C HILDREN"),
        "I CAN BE THERE FOR MY CHILDREN"
    );
    assert_eq!(fix_spaced_chars("a b c"), "a b c");
}

#[test]
fn drops_definition_separator_slashes() {
    assert_eq!(
        remove_definition_separators("t/ Noun: A public thoroughfare. / Noun: Study."),
        "t Noun: A public thoroughfare. Noun: Study."
    );
}

#[test]
fn healing_preserves_markdown_structure() {
    let md = "# Heading\n\n**Bold** *italic*\n\n- item A / item B\n\n- item C\n\n> quote / end\n";
    let healed = heal_markdown(md);
    assert!(healed.contains("# Heading"));
    assert!(healed.contains("**Bold** *italic*"));
    assert!(healed.contains("- item A / item B"));
    assert!(healed.contains("> quote / end"));
}

#[test]
fn healing_drops_slashes_in_plain_paragraph_lines() {
    let md = "Noun: A public thoroughfare. /\n\nNoun: The study of knowledge.";
    let healed = heal_markdown(md);
    assert!(!healed.contains('/'));
    assert!(healed.contains("Noun: A public thoroughfare."));
}

#[test]
fn spike_viewer_strips_id_only_anchors() {
    let md = "<a id=\"titlepage\"></a>\n\n# Title\n\n![logo](../images/logo.png)\n";
    let stripped = strip_raw_html(md);
    assert!(!stripped.contains('<'));
    assert!(stripped.contains("# Title"));
    assert!(stripped.contains("![logo](../images/logo.png)"));
}

#[test]
fn spike_viewer_rewrites_images_to_epub_scheme_and_resolves() {
    let md = "# T\n\n![log](../images/logo.png)\n\n[Home](chapter-1.xhtml#top)\n\n[web](https://example.com/)\n";
    let chapter_hrefs = vec!["text/chapter-1.xhtml".to_string()];
    let (out, targets) = rewrite_links_and_images(md, "text", &chapter_hrefs);
    assert!(out.contains("epub://images/logo.png"), "{out}");
    assert!(out.contains("https://example.com/"), "{out}");
    assert_eq!(targets.len(), 1);
    assert_eq!(targets[0].0, "chapter-1.xhtml#top");
    assert_eq!(targets[0].1, 0);
}

#[test]
fn spike_viewer_healing_keeps_md_blocks_intact() {
    let md = "# H\n\n> quote / end\n\n- item / x\n\ntext **b** / separator\n";
    let healed = heal_markdown(md);
    assert!(healed.contains("# H"));
    assert!(healed.contains("> quote / end"));
    assert!(healed.contains("- item / x"));
    assert!(healed.contains("text **b**"));
    assert!(!healed.contains("/ separator"));
}

#[test]
fn spike_viewer_endnote_style_markdown_survives_pipeline() {
    let md = strip_raw_html(
        "<a id=\"endnotes\"></a>\n\n## Endnotes\n\n1. <a id=\"note-1\"></a>\n\nText. [↩](chapter-24.xhtml#noteref-1)\n",
    );
    let (out, targets) = rewrite_links_and_images(&md, "text", &["text/chapter-24.xhtml".to_string()]);
    assert!(!out.contains("<a "));
    assert!(out.contains("1."), "{out}");
    assert!(targets.iter().any(|(t, i)| t == "chapter-24.xhtml#noteref-1" && *i == 0));
}

#[test]
fn spike_links_outside_the_spine_get_no_hook_and_long_labels_stay() {
    let long = "x".repeat(300);
    let md = format!("[{}](missing.xhtml) [n](#note)\n", long);
    let (out, targets) = rewrite_links_and_images(&md, "text", &[]);
    assert_eq!(out, md);
    assert!(targets.is_empty());
}
