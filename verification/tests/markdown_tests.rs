use epubthing::{heal_markdown, rewrite_links_and_images, strip_raw_html, trim_leading_blank_lines};

#[test]
fn trims_leading_blank_lines() {
    assert_eq!(trim_leading_blank_lines("\n\n## Title\n\nBody\n"), "## Title\n\nBody\n");
}

#[test]
fn trims_whitespace_only_and_nbsp_prefix_lines() {
    let md = " \t\n\u{a0}\u{a0}\n# Heading\n\nText\n";
    assert_eq!(trim_leading_blank_lines(md), "# Heading\n\nText\n");
}

#[test]
fn keeps_leading_content_and_trailing_structure() {
    let md = "starts with text\n\nBody\n";
    assert_eq!(trim_leading_blank_lines(md), md);
    let md = "\n# Title\n";
    assert_eq!(trim_leading_blank_lines(md), "# Title\n");
}

#[test]
fn strips_github_alert_tokens_from_quotes() {
    let md = "> [!WARNING]\n> Attenzione: something bad.\n\n> [!NOTE] A normal note.\n\n> plain quote\n";
    let healed = heal_markdown(md);
    assert!(healed.contains("> Attenzione: something bad."), "{healed}");
    assert!(healed.contains("> A normal note."), "{healed}");
    assert!(!healed.contains("[!"), "{healed}");
    assert!(healed.contains("> plain quote"), "{healed}");
}

#[test]
fn keeps_non_alert_quotes_and_unknown_tokens() {
    let md = "> [!THING] not an alert\n";
    let healed = heal_markdown(md);
    assert_eq!(healed, md);
}

#[test]
fn markdown_strips_id_only_anchors() {
    let md = "<a id=\"titlepage\"></a>\n\n# Title\n\n![logo](../images/logo.png)\n";
    let stripped = strip_raw_html(md);
    assert!(!stripped.contains('<'));
    assert!(stripped.contains("# Title"));
    assert!(stripped.contains("![logo](../images/logo.png)"));
}

#[test]
fn markdown_rewrites_images_to_epub_scheme_and_resolves() {
    let md = "# T\n\n![log](../images/logo.png)\n\n[Home](chapter-1.xhtml#top)\n\n[web](https://example.com/)\n";
    let chapter_hrefs = vec!["text/chapter-1.xhtml".to_string()];
    let (out, targets) = rewrite_links_and_images(md, "text", &chapter_hrefs, 0);
    assert!(out.contains("epub://images/logo.png"), "{out}");
    assert!(out.contains("https://example.com/"), "{out}");
    assert_eq!(targets.len(), 1);
    assert_eq!(targets[0].0, "chapter-1.xhtml#top");
    assert_eq!(targets[0].1, 0);
}

#[test]
fn markdown_healing_keeps_md_blocks_intact() {
    let md = "# H\n\n> quote / end\n\n- item / x\n\ntext **b** / separator\n";
    let healed = heal_markdown(md);
    assert!(healed.contains("# H"));
    assert!(healed.contains("> quote / end"));
    assert!(healed.contains("- item / x"));
    assert!(healed.contains("text **b**"));
    assert!(!healed.contains("/ separator"));
}

#[test]
fn markdown_endnote_style_markdown_survives_pipeline() {
    let md = strip_raw_html(
        "<a id=\"endnotes\"></a>\n\n## Endnotes\n\n1. <a id=\"note-1\"></a>\n\nText. [↩](chapter-24.xhtml#noteref-1)\n",
    );
    let (out, targets) =
        rewrite_links_and_images(&md, "text", &["text/chapter-24.xhtml".to_string()], 0);
    assert!(!out.contains("<a "));
    assert!(out.contains("1."), "{out}");
    assert!(targets.iter().any(|(t, i)| t == "chapter-24.xhtml#noteref-1" && *i == 0));
}

#[test]
fn out_of_spine_link_is_hooked_to_current_chapter() {
    let md = "See [note 1](#note-1) and [again](missing.xhtml).\n";
    let (out, targets) = rewrite_links_and_images(md, "text", &[], 7);
    // no dead external hyperlinks are left in place
    assert_eq!(out, md);
    assert_eq!(targets.len(), 2);
    assert_eq!(targets[0], ("#note-1".to_string(), 7));
    assert_eq!(targets[1], ("missing.xhtml".to_string(), 7));
}

#[test]
fn long_link_text_is_flattened_to_plain_text() {
    let long = "x".repeat(300);
    let md = format!("Some intro [{}](missing.xhtml) more.\n", long);
    let (out, targets) = rewrite_links_and_images(&md, "text", &[], 0);
    assert!(!out.contains("["), "{out}");
    assert!(!out.contains("missing.xhtml"), "{out}");
    assert!(targets.is_empty());
}

#[test]
fn heading_asterisk_runs_are_trimmed() {
    let md = "## ******Moby Dick\n\n### Some **** title **\n\n# **Valid bold**\n";
    let healed = heal_markdown(md);
    assert_eq!(
        healed,
        "## Moby Dick\n\n### Some **** title **\n\n# **Valid bold**\n"
    );
}
