//! Splitting chapter XHTML into styled text spans and images, and reducing
//! it to plain text.

use vstd::prelude::*;
use crate::paths::{resolve_path, spec_resolve_path};
use crate::repair::{
    fix_spaced_chars, remove_definition_separators, spec_fix_spaced_chars,
    spec_remove_definition_separators,
};
use crate::text::{
    ascii_lower, ascii_lower_char, byte_len, byte_len_of, chars_of, extend, extend_lit,
    find_char, find_char_exec, lemma_find_char, is_alnum, is_ascii_ws, is_ws, is_whitespace, lower_text, lowercase,
    occurs_at, occurs_at_exec, push_char, starts_with, starts_with_exec, string_of,
    string_of_range, sub_chars, to_lowercase, trim, trim_chars,
};
use crate::types::{
    copy_opt, opt_view, segment_views, span_views, ContentSegment, SegmentView, SpanView,
    StyledSpan,
};

verus! {

// ─── Entities ────────────────────────────────────────────────────────────

/// `s` from index `i` on with each occurrence of `pat` (scanned left to
/// right, without overlap) replaced by `rep`.
pub open spec fn replace_from(s: Seq<char>, pat: Seq<char>, rep: Seq<char>, i: int) -> Seq<char>
    decreases s.len() - i,
{
    if i < 0 || i >= s.len() || pat.len() == 0 {
        seq![]
    } else if occurs_at(s, i, pat) {
        rep + replace_from(s, pat, rep, i + pat.len())
    } else {
        seq![s[i]] + replace_from(s, pat, rep, i + 1)
    }
}

pub open spec fn replace_all(s: Seq<char>, pat: Seq<char>, rep: Seq<char>) -> Seq<char> {
    replace_from(s, pat, rep, 0)
}

/// Text with the entities `&amp;`, `&lt;`, `&gt;`, `&quot;`, `&apos;` and
/// `&nbsp;` decoded, one entity after the other.
pub open spec fn spec_decode_entities(s: Seq<char>) -> Seq<char> {
    let a = replace_all(s, seq!['&', 'a', 'm', 'p', ';'], seq!['&']);
    let b = replace_all(a, seq!['&', 'l', 't', ';'], seq!['<']);
    let c = replace_all(b, seq!['&', 'g', 't', ';'], seq!['>']);
    let d = replace_all(c, seq!['&', 'q', 'u', 'o', 't', ';'], seq!['"']);
    let e = replace_all(d, seq!['&', 'a', 'p', 'o', 's', ';'], seq!['\'']);
    replace_all(e, seq!['&', 'n', 'b', 's', 'p', ';'], seq![' '])
}

/// Replaces every occurrence of `pat` in `s` by `rep`.
pub fn replace_all_exec(s: &Vec<char>, pat: &[char], rep: &[char]) -> (r: Vec<char>)
    requires
        pat.len() > 0,
    ensures
        r@ == replace_all(s@, pat@, rep@),
{
    let mut out: Vec<char> = Vec::new();
    let mut i: usize = 0;
    assert(out@ =~= Seq::<char>::empty());
    while i < s.len()
        invariant
            0 <= i <= s.len(),
            pat.len() > 0,
            replace_all(s@, pat@, rep@) == out@ + replace_from(s@, pat@, rep@, i as int),
        decreases s.len() - i,
    {
        let ghost before = out@;
        if occurs_at_exec(s, i, pat) {
            extend_lit(&mut out, rep);
            assert(out@ =~= before + rep@);
            i += pat.len();
        } else {
            out.push(s[i]);
            assert(out@ =~= before + seq![s@[i as int]]);
            i += 1;
        }
    }
    assert(out@ =~= out@ + replace_from(s@, pat@, rep@, i as int));
    out
}

/// Decodes the common HTML entities.
pub fn decode_entities(s: &Vec<char>) -> (r: Vec<char>)
    ensures
        r@ == spec_decode_entities(s@),
{
    let (p1, r1) = (['&', 'a', 'm', 'p', ';'], ['&']);
    let (p2, r2) = (['&', 'l', 't', ';'], ['<']);
    let (p3, r3) = (['&', 'g', 't', ';'], ['>']);
    let (p4, r4) = (['&', 'q', 'u', 'o', 't', ';'], ['"']);
    let (p5, r5) = (['&', 'a', 'p', 'o', 's', ';'], ['\'']);
    let (p6, r6) = (['&', 'n', 'b', 's', 'p', ';'], [' ']);
    assert(p1@ == seq!['&', 'a', 'm', 'p', ';'] && r1@ == seq!['&']);
    assert(p2@ == seq!['&', 'l', 't', ';'] && r2@ == seq!['<']);
    assert(p3@ == seq!['&', 'g', 't', ';'] && r3@ == seq!['>']);
    assert(p4@ == seq!['&', 'q', 'u', 'o', 't', ';'] && r4@ == seq!['"']);
    assert(p5@ == seq!['&', 'a', 'p', 'o', 's', ';'] && r5@ == seq!['\'']);
    assert(p6@ == seq!['&', 'n', 'b', 's', 'p', ';'] && r6@ == seq![' ']);
    let a = replace_all_exec(s, &p1, &r1);
    let b = replace_all_exec(&a, &p2, &r2);
    let c = replace_all_exec(&b, &p3, &r3);
    let d = replace_all_exec(&c, &p4, &r4);
    let e = replace_all_exec(&d, &p5, &r5);
    replace_all_exec(&e, &p6, &r6)
}

// ─── Attributes ──────────────────────────────────────────────────────────

/// Index of the first occurrence of `p` in `s` at or after `i`.
pub open spec fn find_sub(s: Seq<char>, p: Seq<char>, i: int) -> Option<int>
    decreases s.len() - i + 1,
{
    if i < 0 || i + p.len() > s.len() {
        None
    } else if occurs_at(s, i, p) {
        Some(i)
    } else {
        find_sub(s, p, i + 1)
    }
}

pub proof fn lemma_find_sub(s: Seq<char>, p: Seq<char>, i: int)
    requires
        0 <= i,
    ensures
        find_sub(s, p, i) matches Some(k) ==> i <= k && k + p.len() <= s.len() && occurs_at(s, k, p),
    decreases s.len() - i + 1,
{
    if i + p.len() <= s.len() && !occurs_at(s, i, p) {
        lemma_find_sub(s, p, i + 1);
    }
}

/// Index of the first occurrence of `p` in `s` at or after `i`.
pub fn find_sub_exec(s: &Vec<char>, p: &[char], i: usize) -> (r: Option<usize>)
    ensures
        r matches Some(k) ==> find_sub(s@, p@, i as int) == Some(k as int),
        r is None ==> find_sub(s@, p@, i as int) is None,
{
    let mut k = i;
    while k <= s.len() && p.len() <= s.len() - k
        invariant
            i <= k,
            find_sub(s@, p@, i as int) == find_sub(s@, p@, k as int),
        decreases s.len() - k + 1,
    {
        if occurs_at_exec(s, k, p) {
            return Some(k);
        }
        if k >= s.len() {
            proof {
                if p@.len() == 0 {
                    assert(s@.subrange(k as int, k as int) =~= p@);
                }
            }
            return None;
        }
        k += 1;
    }
    None
}

/// Index of the first character at or after `i` that is not ASCII white
/// space.
pub open spec fn skip_ascii_ws(s: Seq<char>, i: int) -> int
    decreases s.len() - i,
{
    if 0 <= i < s.len() && is_ascii_ws(s[i]) {
        skip_ascii_ws(s, i + 1)
    } else {
        i
    }
}

pub proof fn lemma_skip_ascii_ws(s: Seq<char>, i: int)
    requires
        0 <= i,
    ensures
        i <= skip_ascii_ws(s, i),
        i <= s.len() ==> skip_ascii_ws(s, i) <= s.len(),
    decreases s.len() - i,
{
    if 0 <= i < s.len() && is_ascii_ws(s[i]) {
        lemma_skip_ascii_ws(s, i + 1);
    }
}

/// Where the value of attribute `a` starts in the lowercased tag `lower`,
/// searching from `start`: an occurrence of the name not preceded by an
/// ASCII letter or digit, followed (after optional ASCII white space) by `=`
/// and optional white space.
pub open spec fn attr_value_start(lower: Seq<char>, a: Seq<char>, start: int) -> Option<int>
    decreases lower.len() - start,
{
    if a.len() == 0 || start < 0 {
        None
    } else {
        match find_sub(lower, a, start) {
            None => None,
            Some(p) => {
                if p < start || p + a.len() > lower.len() {
                    None
                } else {
                    let next = p + a.len();
                    let boundary = p == 0 || !is_alnum(lower[p - 1]);
                    let v = skip_ascii_ws(lower, next);
                    if boundary && v < lower.len() && lower[v] == '=' {
                        Some(skip_ascii_ws(lower, v + 1))
                    } else {
                        attr_value_start(lower, a, next)
                    }
                }
            },
        }
    }
}

/// Index of the first white-space character, `>` or `/` at or after `i`.
pub open spec fn value_end(s: Seq<char>, i: int) -> int
    decreases s.len() - i,
{
    if i < 0 || i >= s.len() {
        s.len() as int
    } else if is_ws(s[i]) || s[i] == '>' || s[i] == '/' {
        i
    } else {
        value_end(s, i + 1)
    }
}

/// The attribute value starting at `v` in `tag`: a quoted value up to its
/// closing quote, or an unquoted one up to white space, `>` or `/`; `None`
/// when it is not closed.
pub open spec fn value_at(tag: Seq<char>, v: int) -> Option<Seq<char>> {
    let after = tag.skip(v);
    if v < 0 || v > tag.len() || after.len() == 0 {
        None
    } else if after[0] == '"' || after[0] == '\'' {
        let inner = after.skip(1);
        let e = find_char(inner, after[0], 0);
        if e >= inner.len() {
            None
        } else {
            Some(inner.take(e))
        }
    } else {
        let e = value_end(after, 0);
        if e >= after.len() {
            None
        } else {
            Some(after.take(e))
        }
    }
}

/// The value of attribute `attr` (matched without regard to ASCII case) in
/// the tag text `tag`.
pub open spec fn spec_extract_attr(tag: Seq<char>, attr: Seq<char>) -> Option<Seq<char>> {
    match attr_value_start(ascii_lower(tag), ascii_lower(attr), 0) {
        None => None,
        Some(v) => value_at(tag, v),
    }
}

/// The ASCII lowercase of `s`.
pub fn ascii_lower_chars(s: &[char]) -> (r: Vec<char>)
    ensures
        r@ == ascii_lower(s@),
{
    let mut r: Vec<char> = Vec::new();
    let mut i: usize = 0;
    while i < s.len()
        invariant
            0 <= i <= s.len(),
            r@ == ascii_lower(s@.take(i as int)),
        decreases s.len() - i,
    {
        r.push(ascii_lower_char(s[i]));
        assert(r@ =~= ascii_lower(s@.take(i + 1)));
        i += 1;
    }
    assert(s@.take(s.len() as int) =~= s@);
    r
}

fn skip_ascii_ws_exec(s: &Vec<char>, i: usize) -> (r: usize)
    requires
        i <= s.len(),
    ensures
        r == skip_ascii_ws(s@, i as int),
        i <= r <= s.len(),
{
    let mut k = i;
    while k < s.len() && (s[k] == ' ' || s[k] == '\t' || s[k] == '\n' || s[k] == '\x0C' || s[k]
        == '\r')
        invariant
            i <= k <= s.len(),
            skip_ascii_ws(s@, i as int) == skip_ascii_ws(s@, k as int),
        decreases s.len() - k,
    {
        k += 1;
    }
    k
}

/// The value of attribute `attr` in the tag text `tag`.
pub fn extract_attr(tag: &Vec<char>, attr: &[char]) -> (r: Option<String>)
    requires
        attr.len() > 0,
    ensures
        opt_view(r) == spec_extract_attr(tag@, attr@),
{
    let ts = tag.as_slice();
    assert(ts@ == tag@);
    let lower = ascii_lower_chars(ts);
    let a = ascii_lower_chars(attr);
    let ghost spec_start = attr_value_start(lower@, a@, 0);
    let mut start: usize = 0;
    let mut vstart: usize = 0;
    loop
        invariant
            lower@ == ascii_lower(tag@),
            a@ == ascii_lower(attr@),
            a.len() > 0,
            lower.len() == tag.len(),
            start <= lower.len(),
            spec_start == attr_value_start(lower@, a@, start as int),
            spec_start == attr_value_start(lower@, a@, 0),
        ensures
            spec_start matches Some(v) && vstart == v && vstart <= lower.len(),
        decreases lower.len() - start,
    {
        let asl = a.as_slice();
        assert(asl@ == a@);
        let found = find_sub_exec(&lower, asl, start);
        proof {
            lemma_find_sub(lower@, a@, start as int);
        }
        match found {
            None => {
                return None;
            },
            Some(p) => {
                let next = p + a.len();
                let boundary = p == 0 || !(('a' <= lower[p - 1] && lower[p - 1] <= 'z') || (
                'A' <= lower[p - 1] && lower[p - 1] <= 'Z') || ('0' <= lower[p - 1] && lower[p
                    - 1] <= '9'));
                let v = skip_ascii_ws_exec(&lower, next);
                if boundary && v < lower.len() && lower[v] == '=' {
                    vstart = skip_ascii_ws_exec(&lower, v + 1);
                    break;
                }
                start = next;
            },
        }
    }
    assert(ascii_lower(tag@).len() == tag@.len());
    if vstart >= tag.len() {
        assert(tag@.skip(vstart as int).len() == 0);
        return None;
    }
    let delim = tag[vstart];
    if delim == '"' || delim == '\'' {
        let e = find_char_exec(tag, delim, vstart + 1);
        proof {
            let after = tag@.skip(vstart as int);
            let inner = after.skip(1);
            assert(inner =~= tag@.skip(vstart + 1));
            lemma_find_char(tag@, delim, vstart + 1);
            lemma_find_char(inner, delim, 0);
            lemma_find_char_shift(tag@, delim, vstart + 1);
        }
        if e >= tag.len() {
            return None;
        }
        let v = string_of_range(tag, vstart + 1, e);
        assert(v@ =~= tag@.skip(vstart as int).skip(1).take(e - vstart - 1));
        Some(v)
    } else {
        let mut e = vstart;
        while e < tag.len() && !(is_whitespace(tag[e]) || tag[e] == '>' || tag[e] == '/')
            invariant
                vstart <= e <= tag.len(),
                value_end(tag@.skip(vstart as int), 0) == value_end(
                    tag@.skip(vstart as int),
                    e - vstart,
                ),
            decreases tag.len() - e,
        {
            e += 1;
        }
        if e >= tag.len() {
            return None;
        }
        let v = string_of_range(tag, vstart, e);
        assert(v@ =~= tag@.skip(vstart as int).take(e - vstart));
        Some(v)
    }
}

/// `find_char` on a suffix counts from the suffix's start.
pub proof fn lemma_find_char_shift(s: Seq<char>, c: char, i: int)
    requires
        0 <= i <= s.len(),
    ensures
        find_char(s.skip(i), c, 0) == find_char(s, c, i) - i,
    decreases s.len() - i,
{
    lemma_find_char_shift_from(s, c, i, i);
}

proof fn lemma_find_char_shift_from(s: Seq<char>, c: char, i: int, k: int)
    requires
        0 <= i <= k <= s.len(),
    ensures
        find_char(s.skip(i), c, k - i) == find_char(s, c, k) - i,
    decreases s.len() - k,
{
    if k < s.len() && s[k] != c {
        lemma_find_char_shift_from(s, c, i, k + 1);
    }
}

// ─── Segments ────────────────────────────────────────────────────────────

/// A tag (lowercased) that separates blocks of text.
pub open spec fn spec_is_block_boundary(t: Seq<char>) -> bool {
    ||| starts_with(t, seq!['<', 'p'])
    ||| starts_with(t, seq!['<', '/', 'p'])
    ||| starts_with(t, seq!['<', 'd', 'i', 'v'])
    ||| starts_with(t, seq!['<', '/', 'd', 'i', 'v'])
    ||| starts_with(t, seq!['<', 'h', '1'])
    ||| starts_with(t, seq!['<', 'h', '2'])
    ||| starts_with(t, seq!['<', 'h', '3'])
    ||| starts_with(t, seq!['<', 'h', '4'])
    ||| starts_with(t, seq!['<', 'h', '5'])
    ||| starts_with(t, seq!['<', 'h', '6'])
    ||| starts_with(t, seq!['<', 'l', 'i'])
    ||| starts_with(t, seq!['<', '/', 'l', 'i'])
    ||| starts_with(t, seq!['<', 'b', 'r'])
    ||| starts_with(t, seq!['<', 'h', 'r'])
}

/// Whether a lowercased tag separates blocks of text.
pub fn is_block_boundary(t: &Vec<char>) -> (b: bool)
    ensures
        b == spec_is_block_boundary(t@),
{
    starts_with_exec(t, &['<', 'p']) || starts_with_exec(t, &['<', '/', 'p']) || starts_with_exec(
        t,
        &['<', 'd', 'i', 'v'],
    ) || starts_with_exec(t, &['<', '/', 'd', 'i', 'v']) || starts_with_exec(t, &['<', 'h', '1'])
        || starts_with_exec(t, &['<', 'h', '2']) || starts_with_exec(t, &['<', 'h', '3'])
        || starts_with_exec(t, &['<', 'h', '4']) || starts_with_exec(t, &['<', 'h', '5'])
        || starts_with_exec(t, &['<', 'h', '6']) || starts_with_exec(t, &['<', 'l', 'i'])
        || starts_with_exec(t, &['<', '/', 'l', 'i']) || starts_with_exec(t, &['<', 'b', 'r'])
        || starts_with_exec(t, &['<', 'h', 'r'])
}

/// The text style in force while scanning: emphasis, heading level and the
/// enclosing link's target.
pub struct Style {
    pub bold: bool,
    pub italic: bool,
    pub underline: bool,
    pub heading: u8,
    pub link: Option<Seq<char>>,
}

/// The style after a tag (`lower` is its lowercase text, `tag` the text).
pub open spec fn next_style(st: Style, lower: Seq<char>, tag: Seq<char>) -> Style {
    if starts_with(lower, seq!['<', 'b', '>']) || starts_with(
        lower,
        seq!['<', 's', 't', 'r', 'o', 'n', 'g', '>'],
    ) {
        Style { bold: true, ..st }
    } else if starts_with(lower, seq!['<', '/', 'b', '>']) || starts_with(
        lower,
        seq!['<', '/', 's', 't', 'r', 'o', 'n', 'g', '>'],
    ) {
        Style { bold: false, ..st }
    } else if starts_with(lower, seq!['<', 'i', '>']) || starts_with(lower, seq!['<', 'e', 'm', '>']) {
        Style { italic: true, ..st }
    } else if starts_with(lower, seq!['<', '/', 'i', '>']) || starts_with(
        lower,
        seq!['<', '/', 'e', 'm', '>'],
    ) {
        Style { italic: false, ..st }
    } else if starts_with(lower, seq!['<', 'u', '>']) {
        Style { underline: true, ..st }
    } else if starts_with(lower, seq!['<', '/', 'u', '>']) {
        Style { underline: false, ..st }
    } else if starts_with(lower, seq!['<', 'h', '1']) {
        Style { heading: 1, ..st }
    } else if starts_with(lower, seq!['<', '/', 'h', '1']) {
        Style { heading: 0, ..st }
    } else if starts_with(lower, seq!['<', 'h', '2']) {
        Style { heading: 2, ..st }
    } else if starts_with(lower, seq!['<', '/', 'h', '2']) {
        Style { heading: 0, ..st }
    } else if starts_with(lower, seq!['<', 'h', '3']) {
        Style { heading: 3, ..st }
    } else if starts_with(lower, seq!['<', '/', 'h', '3']) {
        Style { heading: 0, ..st }
    } else if starts_with(lower, seq!['<', 'h', '4']) {
        Style { heading: 4, ..st }
    } else if starts_with(lower, seq!['<', '/', 'h', '4']) {
        Style { heading: 0, ..st }
    } else if starts_with(lower, seq!['<', 'a', ' ']) {
        Style { link: spec_extract_attr(tag, seq!['h', 'r', 'e', 'f']), ..st }
    } else if starts_with(lower, seq!['<', '/', 'a', '>']) {
        Style { link: None, ..st }
    } else {
        st
    }
}

/// A span with the emphasis and heading of `st`, no link and no color.
pub open spec fn plain_span(text: Seq<char>, st: Style) -> SpanView {
    SpanView {
        text,
        bold: st.bold,
        italic: st.italic,
        underline: st.underline,
        heading_level: st.heading,
        link_url: None,
        color: None,
    }
}

/// The last span exists and does not end a line.
pub open spec fn last_open(spans: Seq<SpanView>) -> bool {
    spans.len() > 0 && !(spans.last().text.len() > 0 && spans.last().text.last() == '\n')
}

pub open spec fn has_line_break(t: Seq<char>) -> bool {
    t.contains('\n') || t.contains('\r')
}

/// The spans after a piece of text between tags: entities decoded; white
/// space alone becomes one space (unless it breaks a line or nothing open
/// precedes it); other text is repaired, trimmed, and keeps one leading
/// space when it had some after an open span and one trailing space when it
/// had some and does not break a line.
pub open spec fn spec_push_text(piece: Seq<char>, st: Style, spans: Seq<SpanView>) -> Seq<SpanView> {
    let text = spec_decode_entities(piece);
    if trim(text).len() == 0 {
        if !has_line_break(text) && last_open(spans) {
            spans.push(plain_span(seq![' '], st))
        } else {
            spans
        }
    } else {
        let fixed = spec_remove_definition_separators(spec_fix_spaced_chars(text));
        let trimmed = trim(fixed);
        if trimmed.len() == 0 {
            spans
        } else {
            let lead = is_ws(text[0]) && last_open(spans);
            let trail = is_ws(text.last()) && !has_line_break(text);
            let t = (if lead {
                seq![' ']
            } else {
                seq![]
            }) + trimmed + (if trail {
                seq![' ']
            } else {
                seq![]
            });
            spans.push(SpanView { text: t, link_url: st.link, ..plain_span(seq![], st) })
        }
    }
}

/// The segments with the pending spans added as a text segment (if any).
pub open spec fn flush(segs: Seq<SegmentView>, spans: Seq<SpanView>) -> Seq<SegmentView> {
    if spans.len() > 0 {
        segs.push(SegmentView::StyledText(spans))
    } else {
        segs
    }
}

/// Index just after the `>` that ends the tag starting at `t` (the length
/// when it is not closed).
pub open spec fn tag_end(h: Seq<char>, t: int) -> int {
    let e = find_char(h, '>', t);
    if e < h.len() {
        e + 1
    } else {
        h.len() as int
    }
}

/// The first tag of `h[pos..]` is an image: the first `<` lies at the same
/// byte offset as the first `<img` of the lowercased remainder.
pub open spec fn image_first(h: Seq<char>, pos: int) -> bool {
    let t = find_char(h, '<', pos);
    let low = lower_text(h.skip(pos));
    t < h.len() && find_sub(low, seq!['<', 'i', 'm', 'g'], 0) is Some && byte_len(
        h.subrange(pos, t),
    ) == byte_len(low.take(find_sub(low, seq!['<', 'i', 'm', 'g'], 0)->0))
}

/// The segments of `h[pos..]`, given the style in force, the pending spans
/// and the segments found so far.
pub open spec fn segments_from(
    h: Seq<char>,
    base: Seq<char>,
    pos: int,
    st: Style,
    spans: Seq<SpanView>,
    segs: Seq<SegmentView>,
) -> Seq<SegmentView>
    decreases h.len() - pos,
{
    if pos < 0 || pos > h.len() {
        segs
    } else {
        let t = find_char(h, '<', pos);
        if t < pos || t > h.len() {
            segs
        } else if image_first(h, pos) {
            let end = tag_end(h, t);
            let segs1 = flush(segs, spans);
            let segs2 = match spec_extract_attr(h.subrange(t, end), seq!['s', 'r', 'c']) {
                Some(src) => segs1.push(
                    SegmentView::Image(
                        if starts_with(src, seq!['/']) {
                            spec_resolve_path(seq![], src)
                        } else {
                            spec_resolve_path(base, src)
                        },
                    ),
                ),
                None => segs1,
            };
            if end <= pos {
                segs2
            } else {
                segments_from(h, base, end, st, seq![], segs2)
            }
        } else if t == h.len() {
            flush(segs, spec_push_text(h.subrange(pos, t), st, spans))
        } else {
            let spans1 = if t > pos {
                spec_push_text(h.subrange(pos, t), st, spans)
            } else {
                spans
            };
            let end = tag_end(h, t);
            let tag = h.subrange(t, end);
            let lower = lower_text(tag);
            if end <= pos {
                segs
            } else if starts_with(lower, seq!['<', 'b', 'r']) || starts_with(
                lower,
                seq!['<', 'h', 'r'],
            ) {
                segments_from(h, base, end, st, spans1.push(plain_span(seq!['\n'], st)), segs)
            } else {
                let spans2 = if spec_is_block_boundary(lower) && last_open(spans1) {
                    spans1.push(
                        plain_span(
                            seq!['\n'],
                            Style { bold: false, italic: false, underline: false, heading: 0, link: None },
                        ),
                    )
                } else {
                    spans1
                };
                segments_from(h, base, end, next_style(st, lower, tag), spans2, segs)
            }
        }
    }
}

pub open spec fn initial_style() -> Style {
    Style { bold: false, italic: false, underline: false, heading: 0, link: None }
}

/// The styled text segments and images of a chapter's XHTML.
pub open spec fn spec_parse_html_segments(html: Seq<char>, base: Seq<char>) -> Seq<SegmentView> {
    segments_from(html, base, 0, initial_style(), seq![], seq![])
}

pub open spec fn style_of(
    bold: bool,
    italic: bool,
    underline: bool,
    heading: u8,
    link: Option<String>,
) -> Style {
    Style { bold, italic, underline, heading, link: opt_view(link) }
}

/// Whether the last span exists and does not end a line.
fn last_span_open(spans: &Vec<StyledSpan>) -> (b: bool)
    ensures
        b == last_open(span_views(spans@)),
{
    if spans.len() == 0 {
        return false;
    }
    let t = chars_of(spans[spans.len() - 1].text.as_str());
    !(t.len() > 0 && t[t.len() - 1] == '\n')
}

/// A string of one character.
fn one_char(c: char) -> (s: String)
    ensures
        s@ == seq![c],
{
    let mut s = String::new();
    push_char(&mut s, c);
    s
}

/// Adds the spans for the text `h[lo..hi]` found between tags.
pub fn push_text(
    h: &Vec<char>,
    lo: usize,
    hi: usize,
    bold: bool,
    italic: bool,
    underline: bool,
    heading: u8,
    link: &Option<String>,
    spans: &mut Vec<StyledSpan>,
)
    requires
        lo <= hi <= h.len(),
    ensures
        span_views(final(spans)@) == spec_push_text(
            h@.subrange(lo as int, hi as int),
            style_of(bold, italic, underline, heading, *link),
            span_views(old(spans)@),
        ),
{
    let ghost st = style_of(bold, italic, underline, heading, *link);
    let ghost before = span_views(spans@);
    let piece = sub_chars(h, lo, hi);
    let text = decode_entities(&piece);
    let breaks = find_char_exec(&text, '\n', 0) < text.len() || find_char_exec(&text, '\r', 0)
        < text.len();
    proof {
        lemma_find_char(text@, '\n', 0);
        lemma_find_char(text@, '\r', 0);
        if text@.contains('\n') {
            let k = choose|k: int| 0 <= k < text@.len() && text@[k] == '\n';
            assert(find_char(text@, '\n', 0) <= k);
        }
        if text@.contains('\r') {
            let k = choose|k: int| 0 <= k < text@.len() && text@[k] == '\r';
            assert(find_char(text@, '\r', 0) <= k);
        }
        if find_char(text@, '\n', 0) < text@.len() {
            assert(text@.contains('\n'));
        }
        if find_char(text@, '\r', 0) < text@.len() {
            assert(text@.contains('\r'));
        }
        assert(breaks == has_line_break(text@));
    }
    let tt = trim_chars(&text);
    if tt.len() == 0 {
        if !breaks && last_span_open(spans) {
            spans.push(StyledSpan::new(one_char(' '), bold, italic, underline, heading));
            assert(span_views(spans@) =~= before.push(plain_span(seq![' '], st)));
        }
        return;
    }
    let fixed = fix_spaced_chars(&text);
    let fixed = remove_definition_separators(&fixed);
    let trimmed = trim_chars(&fixed);
    if trimmed.len() == 0 {
        return;
    }
    let lead = is_whitespace(text[0]) && last_span_open(spans);
    let trail = is_whitespace(text[text.len() - 1]) && !breaks;
    let mut normalized: Vec<char> = Vec::new();
    if lead {
        normalized.push(' ');
    }
    extend(&mut normalized, &trimmed);
    if trail {
        normalized.push(' ');
    }
    proof {
        let t = (if lead {
            seq![' ']
        } else {
            seq![]
        }) + trimmed@ + (if trail {
            seq![' ']
        } else {
            seq![]
        });
        assert(normalized@ =~= t);
    }
    spans.push(
        StyledSpan {
            text: string_of(&normalized),
            bold,
            italic,
            underline,
            heading_level: heading,
            link_url: copy_opt(link),
            color: None,
        },
    );
    assert(span_views(spans@) =~= before.push(
        SpanView { text: normalized@, link_url: st.link, ..plain_span(seq![], st) },
    ));
}

/// Updates the style for a tag (`lower` is its lowercase text).
fn apply_tag(
    lower: &Vec<char>,
    tag: &Vec<char>,
    bold: &mut bool,
    italic: &mut bool,
    underline: &mut bool,
    heading: &mut u8,
    link: &mut Option<String>,
)
    ensures
        style_of(*final(bold), *final(italic), *final(underline), *final(heading), *final(link))
            == next_style(
            style_of(*old(bold), *old(italic), *old(underline), *old(heading), *old(link)),
            lower@,
            tag@,
        ),
{
    if starts_with_exec(lower, &['<', 'b', '>']) || starts_with_exec(
        lower,
        &['<', 's', 't', 'r', 'o', 'n', 'g', '>'],
    ) {
        *bold = true;
    } else if starts_with_exec(lower, &['<', '/', 'b', '>']) || starts_with_exec(
        lower,
        &['<', '/', 's', 't', 'r', 'o', 'n', 'g', '>'],
    ) {
        *bold = false;
    } else if starts_with_exec(lower, &['<', 'i', '>']) || starts_with_exec(
        lower,
        &['<', 'e', 'm', '>'],
    ) {
        *italic = true;
    } else if starts_with_exec(lower, &['<', '/', 'i', '>']) || starts_with_exec(
        lower,
        &['<', '/', 'e', 'm', '>'],
    ) {
        *italic = false;
    } else if starts_with_exec(lower, &['<', 'u', '>']) {
        *underline = true;
    } else if starts_with_exec(lower, &['<', '/', 'u', '>']) {
        *underline = false;
    } else if starts_with_exec(lower, &['<', 'h', '1']) {
        *heading = 1;
    } else if starts_with_exec(lower, &['<', '/', 'h', '1']) {
        *heading = 0;
    } else if starts_with_exec(lower, &['<', 'h', '2']) {
        *heading = 2;
    } else if starts_with_exec(lower, &['<', '/', 'h', '2']) {
        *heading = 0;
    } else if starts_with_exec(lower, &['<', 'h', '3']) {
        *heading = 3;
    } else if starts_with_exec(lower, &['<', '/', 'h', '3']) {
        *heading = 0;
    } else if starts_with_exec(lower, &['<', 'h', '4']) {
        *heading = 4;
    } else if starts_with_exec(lower, &['<', '/', 'h', '4']) {
        *heading = 0;
    } else if starts_with_exec(lower, &['<', 'a', ' ']) {
        let href = ['h', 'r', 'e', 'f'];
        assert(href@ == seq!['h', 'r', 'e', 'f']);
        *link = extract_attr(tag, &href);
    } else if starts_with_exec(lower, &['<', '/', 'a', '>']) {
        *link = None;
    }
}

/// Splits chapter XHTML into styled text segments and images; image
/// sources are resolved against `base_dir` (or the root for `/` paths).
pub fn parse_html_segments(html: &str, base_dir: &str) -> (r: Vec<ContentSegment>)
    ensures
        segment_views(r@) == spec_parse_html_segments(html@, base_dir@),
{
    let h = chars_of(html);
    let n = h.len();
    let mut segments: Vec<ContentSegment> = Vec::new();
    let mut spans: Vec<StyledSpan> = Vec::new();
    let mut bold = false;
    let mut italic = false;
    let mut underline = false;
    let mut heading: u8 = 0;
    let mut link: Option<String> = None;
    let mut pos: usize = 0;
    assert(segment_views(segments@) =~= Seq::<SegmentView>::empty());
    assert(span_views(spans@) =~= Seq::<SpanView>::empty());
    loop
        invariant
            pos <= n,
            n == h.len(),
            h@ == html@,
            spec_parse_html_segments(html@, base_dir@) == segments_from(
                h@,
                base_dir@,
                pos as int,
                style_of(bold, italic, underline, heading, link),
                span_views(spans@),
                segment_views(segments@),
            ),
        decreases n - pos,
    {
        let ghost st = style_of(bold, italic, underline, heading, link);
        let ghost sv = span_views(spans@);
        let ghost gv = segment_views(segments@);
        let t = find_char_exec(&h, '<', pos);
        proof {
            lemma_find_char(h@, '<', pos as int);
        }
        let rest = string_of_range(&h, pos, n);
        assert(rest@ =~= h@.skip(pos as int));
        let low_s = to_lowercase(rest.as_str());
        let low = chars_of(low_s.as_str());
        let img = ['<', 'i', 'm', 'g'];
        assert(img@ == seq!['<', 'i', 'm', 'g']);
        let g = find_sub_exec(&low, &img, 0);
        let mut is_img = false;
        if t < n {
            if let Some(gi) = g {
                proof {
                    lemma_find_sub(low@, img@, 0);
                }
                let bt = byte_len_of(&h, pos, t);
                let bg = byte_len_of(&low, 0, gi);
                assert(low@.subrange(0, gi as int) =~= low@.take(gi as int));
                is_img = bt == bg;
            }
        }
        assert(is_img == image_first(h@, pos as int));
        let e = find_char_exec(&h, '>', t);
        let end = if e < n {
            e + 1
        } else {
            n
        };
        if is_img {
            proof {
                lemma_find_char(h@, '>', t as int);
            }
            if spans.len() > 0 {
                let pending = spans;
                spans = Vec::new();
                segments.push(ContentSegment::StyledText(pending));
                assert(segment_views(segments@) =~= gv.push(SegmentView::StyledText(sv)));
            }
            assert(span_views(spans@) =~= Seq::<SpanView>::empty());
            let ghost gv1 = segment_views(segments@);
            let tag = sub_chars(&h, t, end);
            let src = ['s', 'r', 'c'];
            assert(src@ == seq!['s', 'r', 'c']);
            match extract_attr(&tag, &src) {
                Some(src) => {
                    let sc = chars_of(src.as_str());
                    let full = if sc.len() > 0 && sc[0] == '/' {
                        assert(starts_with(src@, seq!['/'])) by {
                            assert(src@.subrange(0, 1) =~= seq!['/']);
                        }
                        resolve_path("", src.as_str())
                    } else {
                        assert(!starts_with(src@, seq!['/'])) by {
                            if starts_with(src@, seq!['/']) {
                                assert(src@.subrange(0, 1)[0] == '/');
                            }
                        }
                        resolve_path(base_dir, src.as_str())
                    };
                    proof {
                        let empty = "";
                        assert(empty@.len() == 0) by {
                            reveal_strlit("");
                        }
                        assert(empty@ =~= Seq::<char>::empty());
                    }
                    segments.push(ContentSegment::Image { href: full });
                    assert(segment_views(segments@) =~= gv1.push(SegmentView::Image(full@)));
                },
                None => {},
            }
            pos = end;
            continue;
        }
        if t >= n {
            push_text(&h, pos, n, bold, italic, underline, heading, &link, &mut spans);
            if spans.len() > 0 {
                let ghost sv1 = span_views(spans@);
                let pending = spans;
                segments.push(ContentSegment::StyledText(pending));
                assert(segment_views(segments@) =~= gv.push(SegmentView::StyledText(sv1)));
            }
            return segments;
        }
        if t > pos {
            push_text(&h, pos, t, bold, italic, underline, heading, &link, &mut spans);
        }
        proof {
            lemma_find_char(h@, '>', t as int);
        }
        let tag = sub_chars(&h, t, end);
        let tag_s = string_of(&tag);
        let lower_s = to_lowercase(tag_s.as_str());
        let lower = chars_of(lower_s.as_str());
        if starts_with_exec(&lower, &['<', 'b', 'r']) || starts_with_exec(&lower, &['<', 'h', 'r']) {
            let ghost sv1 = span_views(spans@);
            spans.push(StyledSpan::new(one_char('\n'), bold, italic, underline, heading));
            assert(span_views(spans@) =~= sv1.push(plain_span(seq!['\n'], st)));
            pos = end;
            continue;
        }
        if is_block_boundary(&lower) && last_span_open(&spans) {
            let ghost sv1 = span_views(spans@);
            spans.push(StyledSpan::new(one_char('\n'), false, false, false, 0));
            assert(span_views(spans@) =~= sv1.push(plain_span(seq!['\n'], initial_style())));
        }
        apply_tag(&lower, &tag, &mut bold, &mut italic, &mut underline, &mut heading, &mut link);
        pos = end;
    }
}

// ─── Plain text ──────────────────────────────────────────────────────────

/// A tag (lowercased remainder of the text) that starts a new line in the
/// plain text.
pub open spec fn breaks_line(t: Seq<char>) -> bool {
    ||| starts_with(t, seq!['<', 'b', 'r'])
    ||| starts_with(t, seq!['<', 'p'])
    ||| starts_with(t, seq!['<', '/', 'p'])
    ||| starts_with(t, seq!['<', 'd', 'i', 'v'])
    ||| starts_with(t, seq!['<', '/', 'd', 'i', 'v'])
    ||| starts_with(t, seq!['<', 'h'])
    ||| starts_with(t, seq!['<', '/', 'h'])
    ||| starts_with(t, seq!['<', 'l', 'i'])
    ||| starts_with(t, seq!['<', '/', 'l', 'i'])
    ||| starts_with(t, seq!['<', 't', 'r'])
    ||| starts_with(t, seq!['<', '/', 't', 'r'])
    ||| starts_with(t, seq!['<', 'h', 'r'])
}

pub open spec fn closes_raw(t: Seq<char>) -> bool {
    starts_with(t, seq!['<', '/', 's', 't', 'y', 'l', 'e']) || starts_with(
        t,
        seq!['<', '/', 's', 'c', 'r', 'i', 'p', 't'],
    )
}

pub open spec fn opens_raw(t: Seq<char>) -> bool {
    starts_with(t, seq!['<', 's', 't', 'y', 'l', 'e']) || starts_with(
        t,
        seq!['<', 's', 'c', 'r', 'i', 'p', 't'],
    )
}

/// The entity at index `i` (one of `&amp;`, `&lt;`, `&gt;`, `&quot;`,
/// `&apos;`, `&nbsp;`): its character and length.
pub open spec fn entity_at(h: Seq<char>, i: int) -> Option<(char, int)> {
    if occurs_at(h, i, seq!['&', 'a', 'm', 'p', ';']) {
        Some(('&', 5))
    } else if occurs_at(h, i, seq!['&', 'l', 't', ';']) {
        Some(('<', 4))
    } else if occurs_at(h, i, seq!['&', 'g', 't', ';']) {
        Some(('>', 4))
    } else if occurs_at(h, i, seq!['&', 'q', 'u', 'o', 't', ';']) {
        Some(('"', 6))
    } else if occurs_at(h, i, seq!['&', 'a', 'p', 'o', 's', ';']) {
        Some(('\'', 6))
    } else if occurs_at(h, i, seq!['&', 'n', 'b', 's', 'p', ';']) {
        Some((' ', 6))
    } else {
        None
    }
}

pub open spec fn is_space4(c: char) -> bool {
    c == ' ' || c == '\t' || c == '\n' || c == '\r'
}

/// The plain text of `h[i..]` before newline collapsing: tags removed (a
/// tag of `breaks_line` kind starts a line unless one was just started),
/// `style`/`script` content dropped, entities decoded, white space after a
/// line start dropped.
pub open spec fn text_from(h: Seq<char>, i: int, in_tag: bool, in_raw: bool, nl: bool) -> Seq<char>
    decreases h.len() - i,
{
    if i < 0 || i >= h.len() {
        seq![]
    } else if !in_tag && h[i] == '<' {
        let t = lowercase(h.skip(i));
        let raw = if closes_raw(t) {
            false
        } else if opens_raw(t) {
            true
        } else {
            in_raw
        };
        let brk = !nl && breaks_line(t);
        (if brk {
            seq!['\n']
        } else {
            seq![]
        }) + text_from(h, i + 1, true, raw, nl || brk)
    } else if in_tag {
        text_from(h, i + 1, h[i] != '>', in_raw, nl)
    } else if in_raw {
        text_from(h, i + 1, false, true, nl)
    } else if h[i] == '&' && entity_at(h, i) is Some {
        let (c, len) = entity_at(h, i)->0;
        seq![c] + text_from(h, i + len, false, false, nl)
    } else if nl && is_space4(h[i]) {
        text_from(h, i + 1, false, false, nl)
    } else {
        seq![h[i]] + text_from(h, i + 1, false, false, nl && is_space4(h[i]))
    }
}

/// `s[i..]` with each run of `\n` reduced to one (`prev`: a `\n` was
/// just kept).
pub open spec fn collapse_from(s: Seq<char>, i: int, prev: bool) -> Seq<char>
    decreases s.len() - i,
{
    if i < 0 || i >= s.len() {
        seq![]
    } else if s[i] == '\n' {
        if prev {
            collapse_from(s, i + 1, true)
        } else {
            seq!['\n'] + collapse_from(s, i + 1, true)
        }
    } else {
        seq![s[i]] + collapse_from(s, i + 1, false)
    }
}

/// The plain text of an XHTML document.
pub open spec fn spec_strip_html(h: Seq<char>) -> Seq<char> {
    trim(collapse_from(text_from(h, 0, false, false, false), 0, false))
}

/// The entity at index `i`, if any.
fn entity_at_exec(h: &Vec<char>, i: usize) -> (r: Option<(char, usize)>)
    ensures
        r matches Some((c, n)) ==> entity_at(h@, i as int) == Some((c, n as int)),
        r is None ==> entity_at(h@, i as int) is None,
{
    if occurs_at_exec(h, i, &['&', 'a', 'm', 'p', ';']) {
        Some(('&', 5))
    } else if occurs_at_exec(h, i, &['&', 'l', 't', ';']) {
        Some(('<', 4))
    } else if occurs_at_exec(h, i, &['&', 'g', 't', ';']) {
        Some(('>', 4))
    } else if occurs_at_exec(h, i, &['&', 'q', 'u', 'o', 't', ';']) {
        Some(('"', 6))
    } else if occurs_at_exec(h, i, &['&', 'a', 'p', 'o', 's', ';']) {
        Some(('\'', 6))
    } else if occurs_at_exec(h, i, &['&', 'n', 'b', 's', 'p', ';']) {
        Some((' ', 6))
    } else {
        None
    }
}

fn breaks_line_exec(t: &Vec<char>) -> (b: bool)
    ensures
        b == breaks_line(t@),
{
    starts_with_exec(t, &['<', 'b', 'r']) || starts_with_exec(t, &['<', 'p']) || starts_with_exec(
        t,
        &['<', '/', 'p'],
    ) || starts_with_exec(t, &['<', 'd', 'i', 'v']) || starts_with_exec(t, &['<', '/', 'd', 'i', 'v'])
        || starts_with_exec(t, &['<', 'h']) || starts_with_exec(t, &['<', '/', 'h'])
        || starts_with_exec(t, &['<', 'l', 'i']) || starts_with_exec(t, &['<', '/', 'l', 'i'])
        || starts_with_exec(t, &['<', 't', 'r']) || starts_with_exec(t, &['<', '/', 't', 'r'])
        || starts_with_exec(t, &['<', 'h', 'r'])
}

/// Removes HTML tags and returns the plain text.
pub fn strip_html(html: &str) -> (r: String)
    ensures
        r@ == spec_strip_html(html@),
{
    let h = chars_of(html);
    let n = h.len();
    let mut result: Vec<char> = Vec::new();
    let mut in_tag = false;
    let mut in_raw = false;
    let mut nl = false;
    let mut i: usize = 0;
    assert(result@ =~= Seq::<char>::empty());
    while i < n
        invariant
            i <= n,
            n == h.len(),
            h@ == html@,
            text_from(h@, 0, false, false, false) == result@ + text_from(h@, i as int, in_tag, in_raw, nl),
        decreases n - i,
    {
        let ghost before = result@;
        if !in_tag && h[i] == '<' {
            in_tag = true;
            let rest = string_of_range(&h, i, n);
            assert(rest@ =~= h@.skip(i as int));
            let low_s = to_lowercase(rest.as_str());
            let t = chars_of(low_s.as_str());
            if starts_with_exec(&t, &['<', '/', 's', 't', 'y', 'l', 'e']) || starts_with_exec(
                &t,
                &['<', '/', 's', 'c', 'r', 'i', 'p', 't'],
            ) {
                in_raw = false;
            } else if starts_with_exec(&t, &['<', 's', 't', 'y', 'l', 'e']) || starts_with_exec(
                &t,
                &['<', 's', 'c', 'r', 'i', 'p', 't'],
            ) {
                in_raw = true;
            }
            if !nl {
                if breaks_line_exec(&t) {
                    result.push('\n');
                    nl = true;
                }
            }
            assert(result@ =~= before + (if result@.len() > before.len() {
                seq!['\n']
            } else {
                seq![]
            }));
            i += 1;
            continue;
        }
        if in_tag {
            if h[i] == '>' {
                in_tag = false;
            }
            i += 1;
            continue;
        }
        if in_raw {
            i += 1;
            continue;
        }
        if h[i] == '&' {
            if let Some((c, len)) = entity_at_exec(&h, i) {
                result.push(c);
                assert(result@ =~= before + seq![c]);
                i += len;
                continue;
            }
        }
        let c = h[i];
        if nl && (c == ' ' || c == '\t' || c == '\n' || c == '\r') {
            i += 1;
            continue;
        }
        result.push(c);
        assert(result@ =~= before + seq![c]);
        if c != ' ' && c != '\n' && c != '\r' && c != '\t' {
            nl = false;
        }
        i += 1;
    }
    let mut cleaned: Vec<char> = Vec::new();
    let mut prev = false;
    let mut k: usize = 0;
    assert(cleaned@ =~= Seq::<char>::empty());
    assert(result@ =~= result@ + text_from(h@, i as int, in_tag, in_raw, nl));
    while k < result.len()
        invariant
            k <= result.len(),
            collapse_from(result@, 0, false) == cleaned@ + collapse_from(result@, k as int, prev),
        decreases result.len() - k,
    {
        let ghost before = cleaned@;
        let ch = result[k];
        if ch == '\n' {
            if !prev {
                cleaned.push(ch);
                prev = true;
                assert(cleaned@ =~= before + seq!['\n']);
            }
        } else {
            cleaned.push(ch);
            prev = false;
            assert(cleaned@ =~= before + seq![ch]);
        }
        k += 1;
    }
    assert(cleaned@ =~= cleaned@ + collapse_from(result@, k as int, prev));
    let t = trim_chars(&cleaned);
    string_of(&t)
}


// ─── First heading ───────────────────────────────────────────────────────

/// The text of the spans from `j` on that share the heading level `lvl`.
pub open spec fn heading_run(spans: Seq<SpanView>, j: int, lvl: u8) -> Seq<char>
    decreases spans.len() - j,
{
    if j < 0 || j >= spans.len() || spans[j].heading_level != lvl {
        seq![]
    } else {
        spans[j].text + heading_run(spans, j + 1, lvl)
    }
}

/// The index of the first span from `j` on that belongs to a heading.
pub open spec fn first_heading_span(spans: Seq<SpanView>, j: int) -> Option<int>
    decreases spans.len() - j,
{
    if j < 0 || j >= spans.len() {
        None
    } else if spans[j].heading_level > 0 {
        Some(j)
    } else {
        first_heading_span(spans, j + 1)
    }
}

/// The text of the first heading among the segments from `i` on: the run
/// of spans of the first heading's level in its segment.
pub open spec fn first_heading_in(segs: Seq<SegmentView>, i: int) -> Option<Seq<char>>
    decreases segs.len() - i,
{
    if i < 0 || i >= segs.len() {
        None
    } else {
        match segs[i] {
            SegmentView::StyledText(spans) => match first_heading_span(spans, 0) {
                Some(j) => Some(heading_run(spans, j, spans[j].heading_level)),
                None => first_heading_in(segs, i + 1),
            },
            SegmentView::Image(_) => first_heading_in(segs, i + 1),
        }
    }
}

/// The title a chapter's HTML gives itself: the trimmed text of its first
/// heading, when it has one that is not blank.
pub open spec fn spec_first_heading_text(html: Seq<char>) -> Option<Seq<char>> {
    match first_heading_in(spec_parse_html_segments(html, seq![]), 0) {
        Some(t) => if trim(t).len() > 0 {
            Some(trim(t))
        } else {
            None
        },
        None => None,
    }
}

/// The trimmed text of a chapter's first heading, when it has one that is
/// not blank.
pub fn first_heading_text(html: &str) -> (r: Option<String>)
    ensures
        opt_view(r) == spec_first_heading_text(html@),
{
    let empty = String::new();
    let segs = parse_html_segments(html, empty.as_str());
    let ghost sv = segment_views(segs@);
    let mut i: usize = 0;
    while i < segs.len()
        invariant
            0 <= i <= segs.len(),
            sv == segment_views(segs@),
            empty@ == Seq::<char>::empty(),
            sv == spec_parse_html_segments(html@, seq![]),
            first_heading_in(sv, i as int) == first_heading_in(sv, 0),
        decreases segs.len() - i,
    {
        assert(sv[i as int] == segs@[i as int]@);
        match &segs[i] {
            ContentSegment::StyledText(spans) => {
                let ghost pv = span_views(spans@);
                let mut j: usize = 0;
                while j < spans.len() && spans[j].heading_level == 0
                    invariant
                        0 <= j <= spans.len(),
                        pv == span_views(spans@),
                        first_heading_span(pv, j as int) == first_heading_span(pv, 0),
                    decreases spans.len() - j,
                {
                    j += 1;
                }
                if j < spans.len() {
                    let lvl = spans[j].heading_level;
                    let mut text: Vec<char> = Vec::new();
                    let mut k = j;
                    while k < spans.len() && spans[k].heading_level == lvl
                        invariant
                            j <= k <= spans.len(),
                            pv == span_views(spans@),
                            heading_run(pv, j as int, lvl) == text@ + heading_run(pv, k as int, lvl),
                        decreases spans.len() - k,
                    {
                        let t = chars_of(spans[k].text.as_str());
                        let ghost before = text@;
                        extend(&mut text, &t);
                        assert(before + heading_run(pv, k as int, lvl) =~= text@ + heading_run(
                            pv,
                            k + 1,
                            lvl,
                        ));
                        k += 1;
                    }
                    assert(text@ + heading_run(pv, k as int, lvl) =~= text@);
                    let tt = trim_chars(&text);
                    if tt.len() > 0 {
                        return Some(string_of(&tt));
                    } else {
                        return None;
                    }
                }
            },
            ContentSegment::Image { .. } => {},
        }
        i += 1;
    }
    None
}

} // verus!
