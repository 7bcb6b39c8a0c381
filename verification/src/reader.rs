//! What the reader needs around rendering: a chapter's Markdown (converted
//! from its HTML, cleaned, with links and images rewritten) and the media
//! type of an image by its extension.

use vstd::prelude::*;
use crate::html::ascii_lower_chars;
use crate::loading::Chapter;
use crate::markdown::{
    heal_markdown, hook_views, href_views, rewrite_links_and_images, scan_completes, scan_completes_exec,
    spec_heal_markdown, spec_rewrite_links_and_images, spec_strip_raw_html, spec_trim_leading_blank_lines,
    strip_raw_html, trim_leading_blank_lines,
};
use crate::paths::{resolve_path, spec_resolve_path};
use crate::text::{ascii_lower, chars_of, same_str, string_of, string_of_range};

verus! {

// ─── Image media types ───────────────────────────────────────────────────

/// Index of the last `c` in `s` below `j`; -1 when there is none.
pub open spec fn rfind_char(s: Seq<char>, c: char, j: int) -> int
    decreases j,
{
    if j <= 0 || j > s.len() {
        -1
    } else if s[j - 1] == c {
        j - 1
    } else {
        rfind_char(s, c, j - 1)
    }
}

/// Index of the last `c` in `s`; -1 when there is none.
pub fn rfind_char_exec(s: &Vec<char>, c: char) -> (r: Option<usize>)
    ensures
        match r {
            Some(k) => k < s.len() && rfind_char(s@, c, s.len() as int) == k,
            None => rfind_char(s@, c, s.len() as int) == -1,
        },
{
    let mut j = s.len();
    while j > 0
        invariant
            j <= s.len(),
            rfind_char(s@, c, s.len() as int) == rfind_char(s@, c, j as int),
        decreases j,
    {
        if s[j - 1] == c {
            return Some(j - 1);
        }
        j -= 1;
    }
    None
}

/// The extension of a path: what follows its last `.` (the whole path
/// without one), in ASCII lowercase.
pub open spec fn extension(p: Seq<char>) -> Seq<char> {
    ascii_lower(p.skip(rfind_char(p, '.', p.len() as int) + 1))
}

/// The media type of an image by its extension.
pub open spec fn spec_guess_mime(p: Seq<char>) -> Seq<char> {
    let e = extension(p);
    if e == "png"@ {
        "image/png"@
    } else if e == "jpg"@ || e == "jpeg"@ {
        "image/jpeg"@
    } else if e == "gif"@ {
        "image/gif"@
    } else if e == "webp"@ {
        "image/webp"@
    } else if e == "svg"@ {
        "image/svg+xml"@
    } else if e == "bmp"@ {
        "image/bmp"@
    } else {
        "image/"@ + e
    }
}

/// The media type of an image, guessed from its extension.
pub fn guess_mime(path: &str) -> (r: Option<String>)
    ensures
        r matches Some(m) && m@ == spec_guess_mime(path@),
{
    let p = chars_of(path);
    let start = match rfind_char_exec(&p, '.') {
        Some(k) => k + 1,
        None => 0,
    };
    let raw = string_of_range(&p, start, p.len());
    assert(raw@ =~= p@.skip(start as int));
    let ext = string_of(&ascii_lower_chars(chars_of(raw.as_str()).as_slice()));
    let e = ext.as_str();
    let m = if same_str(e, "png") {
        "image/png".to_owned()
    } else if same_str(e, "jpg") || same_str(e, "jpeg") {
        "image/jpeg".to_owned()
    } else if same_str(e, "gif") {
        "image/gif".to_owned()
    } else if same_str(e, "webp") {
        "image/webp".to_owned()
    } else if same_str(e, "svg") {
        "image/svg+xml".to_owned()
    } else if same_str(e, "bmp") {
        "image/bmp".to_owned()
    } else {
        let mut v = chars_of("image/");
        let w = chars_of(e);
        crate::text::extend(&mut v, &w);
        string_of(&v)
    };
    Some(m)
}

/// Whether an image uri is drawn as SVG: it ends with `.svg` (in any case)
/// or its guessed media type is SVG.
pub open spec fn spec_is_svg(uri: Seq<char>) -> bool {
    crate::text::ends_with(ascii_lower(uri), ".svg"@) || spec_guess_mime(uri) == "image/svg+xml"@
}

/// Whether an image uri is drawn as SVG rather than decoded as a bitmap.
pub fn is_svg_uri(uri: &str) -> (b: bool)
    ensures
        b == spec_is_svg(uri@),
{
    let low = ascii_lower_chars(chars_of(uri).as_slice());
    let suffix = chars_of(".svg");
    let ends = crate::text::ends_with_exec(&low, &suffix);
    if ends {
        return true;
    }
    match guess_mime(uri) {
        Some(m) => same_str(m.as_str(), "image/svg+xml"),
        None => false,
    }
}

// ─── A chapter's Markdown ────────────────────────────────────────────────

/// What `mdka::html_to_markdown` makes of an HTML text.
pub uninterp spec fn html_markdown(html: Seq<char>) -> Seq<char>;

/// `mdka::html_to_markdown`: the contract names its result as a function
/// of the HTML.
#[verifier::external_body]
pub(crate) fn html_to_markdown(html: &str) -> (r: String)
    ensures
        r@ == html_markdown(html@),
{
    mdka::html_to_markdown(html)
}

/// Converted Markdown cleaned for rendering: raw HTML fragments removed,
/// then each line healed.
pub open spec fn cleaned(md: Seq<char>) -> Seq<char> {
    spec_heal_markdown(spec_strip_raw_html(md))
}

/// The Markdown shown for a chapter whose HTML converted to `md`: cleaned,
/// links and images rewritten against the chapter's directory `base` and
/// the spine `hrefs`, leading blank lines dropped; with the link hooks.
pub open spec fn spec_render_markdown(md: Seq<char>, base: Seq<char>, hrefs: Seq<Seq<char>>, index: usize) -> (
    Seq<char>,
    Seq<(Seq<char>, usize)>,
) {
    let r = spec_rewrite_links_and_images(cleaned(md), base, hrefs, index);
    (spec_trim_leading_blank_lines(r.0), r.1)
}

/// Prepares converted Markdown for rendering.
pub fn render_markdown(md: &str, base: &str, chapter_hrefs: &[String], index: usize) -> (r: (
    String,
    Vec<(String, usize)>,
))
    requires
        scan_completes(cleaned(md@), 0),
    ensures
        (r.0@, hook_views(r.1@)) == spec_render_markdown(md@, base@, href_views(chapter_hrefs@), index),
{
    let m1 = strip_raw_html(md);
    let m2 = heal_markdown(m1.as_str());
    let (m3, targets) = rewrite_links_and_images(m2.as_str(), base, chapter_hrefs, index);
    let m4 = trim_leading_blank_lines(m3.as_str());
    (m4, targets)
}

/// The directory part of an href: what precedes its last `/` (nothing when
/// it has none).
pub open spec fn href_dir(h: Seq<char>) -> Seq<char> {
    let k = rfind_char(h, '/', h.len() as int);
    if k >= 0 {
        h.take(k)
    } else {
        seq![]
    }
}

/// The spine hrefs of the chapters, resolved.
pub open spec fn resolved_hrefs(chapters: Seq<Chapter>) -> Seq<Seq<char>> {
    chapters.map_values(|c: Chapter| spec_resolve_path(seq![], c.href@))
}

/// The Markdown of the chapter at `index` and its link hooks: its HTML
/// converted by `mdka`, then prepared against the chapter's directory and
/// the other chapters. `None` when there is no such chapter or when the
/// converted Markdown has a link whose `](` ends the text.
pub open spec fn spec_chapter_markdown(chapters: Seq<Chapter>, index: int) -> Option<
    (Seq<char>, Seq<(Seq<char>, usize)>),
> {
    if 0 <= index < chapters.len() {
        let md = html_markdown(chapters[index].html@);
        if scan_completes(cleaned(md), 0) {
            Some(spec_render_markdown(md, href_dir(chapters[index].href@), resolved_hrefs(chapters), index as usize))
        } else {
            None
        }
    } else {
        None
    }
}

/// Converts a chapter's HTML to the Markdown the reader renders, with the
/// link hooks of its internal links.
pub fn chapter_markdown(chapters: &[Chapter], index: usize) -> (r: Option<(String, Vec<(String, usize)>)>)
    ensures
        match r {
            Some(p) => spec_chapter_markdown(chapters@, index as int) == Some((p.0@, hook_views(p.1@))),
            None => spec_chapter_markdown(chapters@, index as int) is None,
        },
{
    if index >= chapters.len() {
        return None;
    }
    let chapter = &chapters[index];
    let h = chars_of(chapter.href.as_str());
    let base = match rfind_char_exec(&h, '/') {
        Some(k) => string_of_range(&h, 0, k),
        None => String::new(),
    };
    assert(base@ == href_dir(chapter.href@));
    let mut hrefs: Vec<String> = Vec::new();
    let mut i: usize = 0;
    while i < chapters.len()
        invariant
            0 <= i <= chapters.len(),
            href_views(hrefs@) == resolved_hrefs(chapters@).take(i as int),
        decreases chapters.len() - i,
    {
        let r = resolve_path("", chapters[i].href.as_str());
        proof {
            let empty = "";
            assert(empty@ =~= Seq::<char>::empty()) by {
                reveal_strlit("");
            }
        }
        assert(r@ == spec_resolve_path(seq![], chapters@[i as int].href@));
        let ghost before = hrefs@;
        hrefs.push(r);
        assert(href_views(hrefs@) =~= href_views(before).push(r@));
        assert(resolved_hrefs(chapters@).take(i + 1) =~= resolved_hrefs(chapters@).take(i as int).push(
            spec_resolve_path(seq![], chapters@[i as int].href@),
        ));
        i += 1;
    }
    assert(resolved_hrefs(chapters@).take(i as int) =~= resolved_hrefs(chapters@));
    let md = html_to_markdown(chapter.html.as_str());
    let m1 = strip_raw_html(md.as_str());
    let m2 = heal_markdown(m1.as_str());
    if !scan_completes_exec(m2.as_str()) {
        return None;
    }
    Some(render_markdown(md.as_str(), base.as_str(), hrefs.as_slice(), index))
}

} // verus!
