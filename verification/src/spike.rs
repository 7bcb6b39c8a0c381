//! The first, simpler Markdown healing: only prose lines are repaired
//! (spaced capitals joined, `/` separators dropped); every other line is
//! kept as it is.

use vstd::prelude::*;
use crate::markdown::{hook_views, href_views, index_of_href, is_internal_link, label_end, label_end_exec, lemma_target_end, lines, lit_data, lit_epub, lit_epub_scheme, lit_http, lit_mailto, looks_like_prose, new_target, prefixed, scan_completes, spec_looks_like_prose, split_lines, target_end, target_end_exec};
use crate::paths::{resolve_path, spec_resolve_path};
use crate::text::{extend_lit, extend_range, find_char, find_char_exec, starts_with_exec, string_of_range, sub_chars, trim, trim_chars};
use crate::repair::{spec_fix_spaced_chars, spec_remove_definition_separators};
use crate::text::{chars_of, extend, string_of, views};

verus! {

/// One line as the simple healing leaves it.
pub open spec fn spike_heal_line(line: Seq<char>) -> Seq<char> {
    if spec_looks_like_prose(line) {
        spec_fix_spaced_chars(spec_remove_definition_separators(line))
    } else {
        line
    }
}

/// The lines healed the simple way, each followed by `\n`.
pub open spec fn spike_heal_lines(ls: Seq<Seq<char>>) -> Seq<char>
    decreases ls.len(),
{
    if ls.len() == 0 {
        seq![]
    } else {
        spike_heal_lines(ls.drop_last()) + spike_heal_line(ls.last()) + seq!['\n']
    }
}

/// Heals the prose lines of a Markdown text and keeps its block syntax.
pub fn heal_markdown(markdown: &str) -> (r: String)
    ensures
        r@ == spike_heal_lines(lines(markdown@)),
{
    let s = chars_of(markdown);
    let ls = split_lines(&s);
    let mut out: Vec<char> = Vec::new();
    let mut i: usize = 0;
    assert(out@ =~= spike_heal_lines(views(ls@).take(0)));
    while i < ls.len()
        invariant
            0 <= i <= ls.len(),
            out@ == spike_heal_lines(views(ls@).take(i as int)),
        decreases ls.len() - i,
    {
        let line = &ls[i];
        let healed = if looks_like_prose(line) {
            let d = crate::repair::remove_definition_separators(line);
            crate::repair::fix_spaced_chars(&d)
        } else {
            line.clone()
        };
        let ghost before = out@;
        extend(&mut out, &healed);
        out.push('\n');
        proof {
            let t = views(ls@).take(i + 1);
            assert(t.drop_last() =~= views(ls@).take(i as int));
            assert(t.last() == line@);
            assert(out@ =~= before + spike_heal_line(line@) + seq!['\n']);
        }
        i += 1;
    }
    assert(views(ls@).take(ls.len() as int) =~= views(ls@));
    string_of(&out)
}

/// Joins runs of single spaced capitals back into words.
pub fn fix_spaced_chars(text: &str) -> (r: String)
    ensures
        r@ == spec_fix_spaced_chars(text@),
{
    string_of(&crate::repair::fix_spaced_chars(&chars_of(text)))
}

/// Drops `/` definition separators between words.
pub fn remove_definition_separators(text: &str) -> (r: String)
    ensures
        r@ == spec_remove_definition_separators(text@),
{
    string_of(&crate::repair::remove_definition_separators(&chars_of(text)))
}


// ─── Links and images ────────────────────────────────────────────────────

/// The hook an element contributes: an internal link whose resolved path
/// (without fragment) is a spine href yields its target and that chapter;
/// anything else yields none.
pub open spec fn spike_hook_of(target: Seq<char>, image: bool, base: Seq<char>, hrefs: Seq<Seq<char>>) -> Seq<
    (Seq<char>, usize),
> {
    if !image && is_internal_link(target) {
        let resolved = spec_resolve_path(base, target.take(find_char(target, '#', 0)));
        let m = index_of_href(hrefs, resolved, 0);
        if m < hrefs.len() {
            seq![(target, m as usize)]
        } else {
            seq![]
        }
    } else {
        seq![]
    }
}

/// The rewritten Markdown and hooks from index `i` on; `None` when the scan
/// reaches a `](` that ends the text.
pub open spec fn spike_rewrite_from(s: Seq<char>, base: Seq<char>, hrefs: Seq<Seq<char>>, i: int) -> Option<
    (Seq<char>, Seq<(Seq<char>, usize)>),
>
    decreases s.len() - i,
{
    if i < 0 || i >= s.len() {
        Some((seq![], seq![]))
    } else {
        let image = s[i] == '!' && i + 1 < s.len() && s[i + 1] == '[';
        let link = !image && s[i] == '[';
        let j = label_end(s, i + 1, false);
        if (image || link) && i + 1 < s.len() && j < s.len() {
            if j + 2 >= s.len() || j < i + 1 {
                None
            } else {
                let k = target_end(s, j + 2, 1);
                if k <= j + 2 || k > s.len() {
                    None
                } else {
                    let target = trim(s.subrange(j + 2, k - 1));
                    match spike_rewrite_from(s, base, hrefs, k) {
                        None => None,
                        Some((o, t)) => {
                            let piece = s.subrange(i, j + 1) + seq!['('] + new_target(target, image, base) + seq![')'];
                            Some((piece + o, spike_hook_of(target, image, base, hrefs) + t))
                        },
                    }
                }
            }
        } else {
            match spike_rewrite_from(s, base, hrefs, i + 1) {
                None => None,
                Some((o, t)) => Some((seq![s[i]] + o, t)),
            }
        }
    }
}

pub proof fn lemma_spike_scan(s: Seq<char>, base: Seq<char>, hrefs: Seq<Seq<char>>, i: int)
    ensures
        scan_completes(s, i) == (spike_rewrite_from(s, base, hrefs, i) is Some),
    decreases s.len() - i,
{
    if 0 <= i < s.len() {
        let image = s[i] == '!' && i + 1 < s.len() && s[i + 1] == '[';
        let link = !image && s[i] == '[';
        let j = label_end(s, i + 1, false);
        if (image || link) && i + 1 < s.len() && j < s.len() {
            if !(j + 2 >= s.len() || j < i + 1) {
                let k = target_end(s, j + 2, 1);
                if !(k <= j + 2 || k > s.len()) {
                    lemma_spike_scan(s, base, hrefs, k);
                }
            }
        } else {
            lemma_spike_scan(s, base, hrefs, i + 1);
        }
    }
}

/// Index of the spine href equal to `resolved`, if any.
fn position_of(chapter_hrefs: &[String], resolved: &String) -> (r: Option<usize>)
    ensures
        ({
            let m = index_of_href(href_views(chapter_hrefs@), resolved@, 0);
            match r {
                Some(k) => m < chapter_hrefs@.len() && k == m,
                None => m >= chapter_hrefs@.len(),
            }
        }),
{
    let ghost hv = href_views(chapter_hrefs@);
    let mut m: usize = 0;
    while m < chapter_hrefs.len()
        invariant
            0 <= m <= chapter_hrefs.len(),
            hv == href_views(chapter_hrefs@),
            hv.len() == chapter_hrefs@.len(),
            index_of_href(hv, resolved@, 0) == index_of_href(hv, resolved@, m as int),
        decreases chapter_hrefs.len() - m,
    {
        if chapter_hrefs[m] == *resolved {
            assert(hv[m as int] == resolved@);
            return Some(m);
        }
        m += 1;
    }
    None
}

/// Rewrites `![alt](src)` image targets to `epub://` resolved archive paths
/// and collects the internal link targets that lead to a spine chapter,
/// with that chapter's index.
pub fn rewrite_links_and_images(markdown: &str, base: &str, chapter_hrefs: &[String]) -> (r: (
    String,
    Vec<(String, usize)>,
))
    requires
        scan_completes(markdown@, 0),
    ensures
        Some((r.0@, hook_views(r.1@))) == spike_rewrite_from(markdown@, base@, href_views(chapter_hrefs@), 0),
{
    let s = chars_of(markdown);
    let n = s.len();
    let ghost hv = href_views(chapter_hrefs@);
    let ghost full = spike_rewrite_from(s@, base@, hv, 0);
    proof {
        lemma_spike_scan(s@, base@, hv, 0);
    }
    let mut out: Vec<char> = Vec::new();
    let mut targets: Vec<(String, usize)> = Vec::new();
    let mut i: usize = 0;
    assert(hook_views(targets@) =~= Seq::<(Seq<char>, usize)>::empty());
    assert(prefixed(out@, hook_views(targets@), full) =~= full) by {
        match full {
            None => {},
            Some((o2, t2)) => {
                assert(out@ + o2 =~= o2);
                assert(hook_views(targets@) + t2 =~= t2);
            },
        }
    }
    while i < n
        invariant
            0 <= i <= n,
            n == s.len(),
            s@ == markdown@,
            hv == href_views(chapter_hrefs@),
            full == spike_rewrite_from(s@, base@, hv, 0),
            full is Some,
            full == prefixed(out@, hook_views(targets@), spike_rewrite_from(s@, base@, hv, i as int)),
        decreases n - i,
    {
        let ghost o0 = out@;
        let ghost t0 = hook_views(targets@);
        let image = s[i] == '!' && i + 1 < n && s[i + 1] == '[';
        let link = !image && s[i] == '[';
        if (image || link) && i + 1 < n {
            let j = label_end_exec(&s, i + 1);
            if j < n {
                assert(j + 2 < n);
                let k = target_end_exec(&s, j + 2);
                proof {
                    lemma_target_end(s@, j + 2, 1);
                }
                let raw = sub_chars(&s, j + 2, k - 1);
                let target = trim_chars(&raw);
                let ghost rest = spike_rewrite_from(s@, base@, hv, k as int);
                let target_s = string_of(&target);
                extend_range(&mut out, &s, i, j + 1);
                out.push('(');
                let http = ['h', 't', 't', 'p'];
                let data = ['d', 'a', 't', 'a', ':'];
                let epub = ['e', 'p', 'u', 'b', ':'];
                let mailto = ['m', 'a', 'i', 'l', 't', 'o', ':'];
                assert(http@ =~= lit_http());
                assert(data@ =~= lit_data());
                assert(epub@ =~= lit_epub());
                assert(mailto@ =~= lit_mailto());
                let is_http = starts_with_exec(&target, &http);
                let is_data = starts_with_exec(&target, &data);
                if image && !is_http && !is_data && !starts_with_exec(&target, &epub) {
                    let resolved = resolve_path(base, target_s.as_str());
                    let scheme = ['e', 'p', 'u', 'b', ':', '/', '/'];
                    assert(scheme@ =~= lit_epub_scheme());
                    extend_lit(&mut out, &scheme);
                    let rv = chars_of(resolved.as_str());
                    extend(&mut out, &rv);
                } else {
                    if !image && !is_http && !starts_with_exec(&target, &mailto) && !is_data {
                        let hash = find_char_exec(&target, '#', 0);
                        let path = string_of_range(&target, 0, hash);
                        assert(path@ =~= target@.take(hash as int));
                        let resolved = resolve_path(base, path.as_str());
                        match position_of(chapter_hrefs, &resolved) {
                            Some(idx) => {
                                let ghost tb = hook_views(targets@);
                                targets.push((target_s, idx));
                                assert(hook_views(targets@) =~= tb.push((target@, idx)));
                            },
                            None => {},
                        }
                    }
                    extend(&mut out, &target);
                }
                out.push(')');
                proof {
                    assert(rest is Some);
                    let (o2, t2) = rest->0;
                    let piece = s@.subrange(i as int, j + 1) + seq!['('] + new_target(target@, image, base@) + seq![')'];
                    assert(out@ =~= o0 + piece);
                    assert(hook_views(targets@) =~= t0 + spike_hook_of(target@, image, base@, hv));
                    assert(out@ + o2 =~= o0 + (piece + o2));
                    assert(hook_views(targets@) + t2 =~= t0 + (spike_hook_of(target@, image, base@, hv) + t2));
                }
                i = k;
                continue;
            }
        }
        out.push(s[i]);
        proof {
            let rest = spike_rewrite_from(s@, base@, hv, i + 1);
            assert(rest is Some);
            let (o2, t2) = rest->0;
            assert(out@ + o2 =~= o0 + (seq![s@[i as int]] + o2));
        }
        i += 1;
    }
    proof {
        assert(out@ + seq![] =~= out@);
        assert(hook_views(targets@) + seq![] =~= hook_views(targets@));
    }
    (string_of(&out), targets)
}

/// Removes the raw `<...>` HTML fragments that HTML-to-Markdown conversion
/// leaves in place; the same scan as the reader's.
pub fn strip_raw_html(markdown: &str) -> (r: String)
    ensures
        r@ == crate::markdown::spec_strip_raw_html(markdown@),
{
    crate::markdown::strip_raw_html(markdown)
}

/// A chapter's HTML converted to Markdown by `mdka`, healed the simple way
/// when `heal` is set.
pub fn chapter_to_markdown(html: &str, heal: bool) -> (r: String)
    ensures
        r@ == if heal {
            spike_heal_lines(lines(crate::reader::html_markdown(html@)))
        } else {
            crate::reader::html_markdown(html@)
        },
{
    let md = crate::reader::html_to_markdown(html);
    if heal {
        heal_markdown(md.as_str())
    } else {
        md
    }
}

} // verus!
