//! In-chapter search: the chapter's flat text, match ranges, the active
//! match, highlighted segments, word counts and reading times.

use vstd::prelude::*;
use crate::text::{
    ascii_lower, is_ascii_text, chars_of, string_of_range, decimal, decimal_of, extend, extend_lit, lowercase, string_of, to_lowercase, words,
    split_words,
};
use crate::html::{find_sub, find_sub_exec, lemma_find_sub};
use crate::toc::{is_alphanumeric, unicode_alnum};
use crate::types::{ContentSegment, SegmentView, SpanView, segment_views, span_views};

verus! {

broadcast use vstd::std_specs::hash::group_hash_axioms;

// ─── Flat text, word count, reading time ─────────────────────────────────

/// The text of a list of spans, concatenated.
pub open spec fn spans_text(spans: Seq<SpanView>) -> Seq<char>
    decreases spans.len(),
{
    if spans.len() == 0 {
        seq![]
    } else {
        spans_text(spans.drop_last()) + spans.last().text
    }
}

/// The text of a chapter's text segments, concatenated (images contribute
/// nothing).
pub open spec fn flat_text(segs: Seq<SegmentView>) -> Seq<char>
    decreases segs.len(),
{
    if segs.len() == 0 {
        seq![]
    } else {
        flat_text(segs.drop_last()) + match segs.last() {
            SegmentView::StyledText(spans) => spans_text(spans),
            SegmentView::Image(_) => seq![],
        }
    }
}

/// Builds a flat text string from a chapter's text segments.
pub fn build_flat_text(segments: &[ContentSegment]) -> (r: String)
    ensures
        r@ == flat_text(segment_views(segments@)),
{
    let mut text: Vec<char> = Vec::new();
    let mut i: usize = 0;
    assert(segment_views(segments@).take(0) =~= Seq::<SegmentView>::empty());
    while i < segments.len()
        invariant
            0 <= i <= segments.len(),
            text@ == flat_text(segment_views(segments@).take(i as int)),
        decreases segments.len() - i,
    {
        let ghost before = text@;
        match &segments[i] {
            ContentSegment::StyledText(spans) => {
                let mut k: usize = 0;
                assert(span_views(spans@).take(0) =~= Seq::<SpanView>::empty());
                assert(text@ =~= before + spans_text(span_views(spans@).take(0)));
                while k < spans.len()
                    invariant
                        0 <= k <= spans.len(),
                        text@ == before + spans_text(span_views(spans@).take(k as int)),
                    decreases spans.len() - k,
                {
                    let t = chars_of(spans[k].text.as_str());
                    extend(&mut text, &t);
                    assert(span_views(spans@).take(k + 1).drop_last() =~= span_views(spans@).take(
                        k as int,
                    ));
                    k += 1;
                }
                assert(span_views(spans@).take(k as int) =~= span_views(spans@));
            },
            ContentSegment::Image { .. } => {
                assert(text@ =~= before + Seq::<char>::empty());
            },
        }
        assert(segment_views(segments@).take(i + 1).drop_last() =~= segment_views(segments@).take(
            i as int,
        ));
        i += 1;
    }
    assert(segment_views(segments@).take(i as int) =~= segment_views(segments@));
    string_of(&text)
}

/// The number of white-space separated words of a chapter's text.
pub fn word_count(segments: &[ContentSegment]) -> (r: usize)
    ensures
        r == words(flat_text(segment_views(segments@))).len(),
{
    let text = build_flat_text(segments);
    let c = chars_of(text.as_str());
    let ws = split_words(&c);
    assert(crate::text::views(ws@).len() == ws@.len());
    ws.len()
}

/// A reading time in minutes as shown to the reader: `less than 1m`, `Nm`,
/// `Nh` or `Nh Mm`.
pub open spec fn spec_format_reading_time(minutes: nat) -> Seq<char> {
    if minutes == 0 {
        seq!['l', 'e', 's', 's', ' ', 't', 'h', 'a', 'n', ' ', '1', 'm']
    } else if minutes < 60 {
        decimal(minutes) + seq!['m']
    } else if minutes % 60 == 0 {
        decimal(minutes / 60) + seq!['h']
    } else {
        decimal(minutes / 60) + seq!['h', ' '] + decimal(minutes % 60) + seq!['m']
    }
}

/// Formats a reading time given in minutes.
pub fn format_reading_time(minutes: u64) -> (r: String)
    ensures
        r@ == spec_format_reading_time(minutes as nat),
{
    let mut v: Vec<char> = Vec::new();
    if minutes == 0 {
        extend_lit(&mut v, &['l', 'e', 's', 's', ' ', 't', 'h', 'a', 'n', ' ', '1', 'm']);
    } else if minutes < 60 {
        let d = decimal_of(minutes as u128);
        extend(&mut v, &d);
        v.push('m');
    } else {
        let h = minutes / 60;
        let rem = minutes % 60;
        let dh = decimal_of(h as u128);
        extend(&mut v, &dh);
        v.push('h');
        if rem != 0 {
            v.push(' ');
            let dr = decimal_of(rem as u128);
            extend(&mut v, &dr);
            v.push('m');
        }
    }
    string_of(&v)
}

// ─── Matching ────────────────────────────────────────────────────────────

/// A match starting at `start` begins a word: it is at the start, or the
/// character at index `start - 1` of the text (if any) is not alphanumeric.
pub open spec fn word_start_ok(text: Seq<char>, start: int) -> bool {
    start == 0 || (start - 1 < text.len() ==> !unicode_alnum(text[start - 1]))
}

/// A match ending at `end` ends a word: it reaches the end of the text or
/// the character at index `end` is not alphanumeric.
pub open spec fn word_end_ok(text: Seq<char>, end: int) -> bool {
    end >= text.len() || !unicode_alnum(text[end])
}

/// Text as compared: itself with `match_case`, its lowercase otherwise.
pub open spec fn folded(s: Seq<char>, match_case: bool) -> Seq<char> {
    if match_case {
        s
    } else {
        lowercase(s)
    }
}

/// The match ranges, in characters, of `query_fold` in `text_fold` from
/// index `pos` on: each occurrence, found from one past the start of the
/// previous one (so occurrences may overlap), gives its start and end; with
/// `whole_words` only those with no alphanumeric character of `text` right
/// before or after. The scan stops where a position would not fit a `usize`.
pub open spec fn ranges_from(
    text: Seq<char>,
    text_fold: Seq<char>,
    query_fold: Seq<char>,
    whole_words: bool,
    pos: int,
) -> Seq<(usize, usize)>
    decreases text_fold.len() + 1 - pos,
{
    match find_sub(text_fold, query_fold, pos) {
        None => seq![],
        Some(start) => {
            if start < pos || start + query_fold.len() > text_fold.len() || start + query_fold.len() > usize::MAX {
                seq![]
            } else {
                let end = start + query_fold.len();
                let rest = ranges_from(text, text_fold, query_fold, whole_words, start + 1);
                if whole_words && !(word_start_ok(text, start) && word_end_ok(text, end)) {
                    rest
                } else {
                    seq![(start as usize, end as usize)] + rest
                }
            }
        },
    }
}

/// All match ranges, in characters, of `query` in `text` (none for an empty
/// query), comparing the lowercase of both unless `match_case`.
pub open spec fn spec_find_matches(
    text: Seq<char>,
    query: Seq<char>,
    match_case: bool,
    whole_words: bool,
) -> Seq<(usize, usize)> {
    if query.len() == 0 {
        seq![]
    } else {
        ranges_from(text, folded(text, match_case), folded(query, match_case), whole_words, 0)
    }
}

/// The match ranges of `qf` in `tf`, in characters.
fn match_ranges(text: &Vec<char>, tf: &Vec<char>, qf: &Vec<char>, whole_words: bool) -> (r: Vec<(usize, usize)>)
    ensures
        r@ == ranges_from(text@, tf@, qf@, whole_words, 0),
{
    let ghost full = ranges_from(text@, tf@, qf@, whole_words, 0);
    let mut matches: Vec<(usize, usize)> = Vec::new();
    let mut pos: usize = 0;
    assert(matches@ + full =~= full);
    loop
        invariant
            pos <= tf.len(),
            full == ranges_from(text@, tf@, qf@, whole_words, 0),
            full == matches@ + ranges_from(text@, tf@, qf@, whole_words, pos as int),
        decreases tf.len() + 1 - pos,
    {
        let start = match find_sub_exec(tf, qf.as_slice(), pos) {
            None => {
                assert(matches@ + Seq::<(usize, usize)>::empty() =~= matches@);
                return matches;
            },
            Some(k) => k,
        };
        proof {
            lemma_find_sub(tf@, qf@, pos as int);
        }
        let end = start + qf.len();
        let keep = if whole_words {
            let is_word_start = start == 0 || !(start - 1 < text.len()) || !is_alphanumeric(text[start - 1]);
            let is_word_end = end >= text.len() || !is_alphanumeric(text[end]);
            is_word_start && is_word_end
        } else {
            true
        };
        let ghost before = matches@;
        if keep {
            matches.push((start, end));
        }
        proof {
            let rest = ranges_from(text@, tf@, qf@, whole_words, start + 1);
            if keep {
                assert(matches@ + rest =~= before + (seq![(start, end)] + rest));
            }
        }
        if start >= tf.len() {
            proof {
                assert(find_sub(tf@, qf@, start + 1) is None);
                assert(matches@ + Seq::<(usize, usize)>::empty() =~= matches@);
            }
            return matches;
        }
        pos = start + 1;
    }
}

/// Finds all match ranges (in characters) of `query` in `text`, ignoring
/// case unless `match_case`, and only whole words with `whole_words`.
pub fn find_matches(text: &str, query: &str, match_case: bool, whole_words: bool) -> (r: Vec<(usize, usize)>)
    ensures
        r@ == spec_find_matches(text@, query@, match_case, whole_words),
        !match_case && query@.len() > 0 && is_ascii_text(text@) && is_ascii_text(query@) ==> r@ == ranges_from(
            text@,
            ascii_lower(text@),
            ascii_lower(query@),
            whole_words,
            0,
        ),
{
    let qc = chars_of(query);
    if qc.len() == 0 {
        return Vec::new();
    }
    let tc = chars_of(text);
    if match_case {
        match_ranges(&tc, &tc, &qc, whole_words)
    } else {
        let tf = chars_of(to_lowercase(text).as_str());
        let qf = chars_of(to_lowercase(query).as_str());
        match_ranges(&tc, &tf, &qf, whole_words)
    }
}

// ─── Highlighting ────────────────────────────────────────────────────────

/// Color of the active match.
pub const ACTIVE_MATCH_COLOR: [u8; 4] = [255, 140, 20, 255];

/// Color of the other matches.
pub const MATCH_COLOR: [u8; 4] = [255, 200, 60, 255];

/// The matches to highlight, each with whether it is the active one: only
/// the active match with `active_only`, else all of them.
pub open spec fn relevant(matches: Seq<(usize, usize)>, active: usize, active_only: bool) -> Seq<
    (usize, usize, bool),
> {
    if active_only {
        if active < matches.len() {
            seq![(matches[active as int].0, matches[active as int].1, true)]
        } else {
            seq![]
        }
    } else {
        Seq::new(matches.len(), |i: int| (matches[i].0, matches[i].1, i == active))
    }
}

/// The part of a match that lies within a span covering `[cp, end)`.
pub open spec fn overlap(r: (usize, usize, bool), cp: int, end: int) -> (int, int) {
    (
        if r.0 as int > cp {
            r.0 as int
        } else {
            cp
        },
        if (r.1 as int) < end {
            r.1 as int
        } else {
            end
        },
    )
}

/// `p` is an end of a non-empty overlap of one of `rel` with `[cp, end)`.
pub open spec fn cut_in(rel: Seq<(usize, usize, bool)>, cp: int, end: int, p: int) -> bool
    decreases rel.len(),
{
    rel.len() > 0 && (cut_in(rel.drop_last(), cp, end, p) || {
        let (os, oe) = overlap(rel.last(), cp, end);
        os < oe && (p == os || p == oe)
    })
}

/// The positions where a span covering `[cp, end)` is cut.
pub open spec fn is_point(rel: Seq<(usize, usize, bool)>, cp: int, end: int, p: int) -> bool {
    p == cp || p == end || cut_in(rel, cp, end, p)
}

/// The cut positions in `[cp, p]`, in increasing order.
pub open spec fn points_upto(rel: Seq<(usize, usize, bool)>, cp: int, end: int, p: int) -> Seq<int>
    decreases p - cp + 1,
{
    if p < cp {
        seq![]
    } else if is_point(rel, cp, end, p) {
        points_upto(rel, cp, end, p - 1).push(p)
    } else {
        points_upto(rel, cp, end, p - 1)
    }
}

/// Whether each overlap start is the active match: a later match starting
/// at the same position decides.
pub open spec fn color_map(rel: Seq<(usize, usize, bool)>, cp: int, end: int) -> Map<usize, bool>
    decreases rel.len(),
{
    if rel.len() == 0 {
        Map::empty()
    } else {
        let m = color_map(rel.drop_last(), cp, end);
        let (os, oe) = overlap(rel.last(), cp, end);
        if os < oe {
            m.insert(os as usize, rel.last().2)
        } else {
            m
        }
    }
}

/// The color of a piece starting at `s`.
pub open spec fn piece_color(m: Map<usize, bool>, s: int) -> Option<[u8; 4]> {
    if m.contains_key(s as usize) {
        if m[s as usize] {
            Some(ACTIVE_MATCH_COLOR)
        } else {
            Some(MATCH_COLOR)
        }
    } else {
        None
    }
}

/// A span (starting at character `cp` of the chapter) cut at the match
/// boundaries into pieces; a piece that starts a match takes its color.
pub open spec fn highlight_span(sp: SpanView, cp: int, rel: Seq<(usize, usize, bool)>) -> Seq<SpanView> {
    let end = cp + sp.text.len();
    let pts = points_upto(rel, cp, end, end);
    let m = color_map(rel, cp, end);
    Seq::new(
        (if pts.len() > 0 {
            pts.len() - 1
        } else {
            0
        }) as nat,
        |k: int|
            SpanView {
                text: sp.text.subrange(pts[k] - cp, pts[k + 1] - cp),
                color: piece_color(m, pts[k]),
                ..sp
            },
    )
}

/// The highlighted pieces of `spans[i..]`, the first starting at `cp`.
pub open spec fn highlight_spans(spans: Seq<SpanView>, i: int, cp: int, rel: Seq<(usize, usize, bool)>) -> Seq<SpanView>
    decreases spans.len() - i,
{
    if i < 0 || i >= spans.len() {
        seq![]
    } else {
        highlight_span(spans[i], cp, rel) + highlight_spans(spans, i + 1, cp + spans[i].text.len(), rel)
    }
}

/// The highlighted segments of `segs[i..]`, the first text starting at
/// character `cp`: images are kept, text segments are cut into pieces and
/// dropped when nothing is left.
pub open spec fn highlight_segments(segs: Seq<SegmentView>, i: int, cp: int, rel: Seq<(usize, usize, bool)>) -> Seq<SegmentView>
    decreases segs.len() - i,
{
    if i < 0 || i >= segs.len() {
        seq![]
    } else {
        match segs[i] {
            SegmentView::Image(h) => seq![SegmentView::Image(h)] + highlight_segments(segs, i + 1, cp, rel),
            SegmentView::StyledText(spans) => {
                let pieces = highlight_spans(spans, 0, cp, rel);
                (if pieces.len() > 0 {
                    seq![SegmentView::StyledText(pieces)]
                } else {
                    seq![]
                }) + highlight_segments(segs, i + 1, cp + spans_text(spans).len(), rel)
            },
        }
    }
}

/// Removes consecutive repeated elements (`Vec::dedup`).
pub open spec fn dedup_seq(s: Seq<usize>) -> Seq<usize>
    decreases s.len(),
{
    if s.len() <= 1 {
        s
    } else {
        let r = dedup_seq(s.drop_last());
        if s.last() == s[s.len() - 2] {
            r
        } else {
            r.push(s.last())
        }
    }
}

/// `slice::sort` on cut positions: the same elements in nondecreasing order.
#[verifier::external_body]
fn sort_points(v: &mut Vec<usize>)
    ensures
        final(v)@.to_multiset() == old(v)@.to_multiset(),
        forall|i: int, j: int| 0 <= i < j < final(v)@.len() ==> final(v)@[i] <= final(v)@[j],
{
    v.sort();
}

/// Removes consecutive repeated cut positions.
fn dedup_points(v: &mut Vec<usize>)
    ensures
        final(v)@ == dedup_seq(old(v)@),
{
    let mut out: Vec<usize> = Vec::new();
    let mut i: usize = 0;
    assert(v@.take(0) =~= Seq::<usize>::empty());
    while i < v.len()
        invariant
            0 <= i <= v.len(),
            out@ == dedup_seq(v@.take(i as int)),
        decreases v.len() - i,
    {
        let ghost t = v@.take(i + 1);
        assert(t.drop_last() =~= v@.take(i as int));
        if i == 0 || v[i] != v[i - 1] {
            out.push(v[i]);
        }
        proof {
            if i == 0 {
                assert(t =~= seq![v@[0]]);
                assert(out@ =~= t);
            }
        }
        i += 1;
    }
    assert(v@.take(i as int) =~= v@);
    *v = out;
}

proof fn lemma_dedup(s: Seq<usize>)
    requires
        forall|i: int, j: int| 0 <= i < j < s.len() ==> s[i] <= s[j],
    ensures
        forall|x: usize| dedup_seq(s).contains(x) <==> s.contains(x),
        forall|i: int, j: int| 0 <= i < j < dedup_seq(s).len() ==> dedup_seq(s)[i] < dedup_seq(s)[j],
        s.len() > 0 ==> dedup_seq(s).len() > 0 && dedup_seq(s).last() == s.last(),
    decreases s.len(),
{
    if s.len() > 1 {
        let p = s.drop_last();
        lemma_dedup(p);
        let r = dedup_seq(p);
        assert forall|x: usize| dedup_seq(s).contains(x) <==> s.contains(x) by {
            assert(r.contains(x) <==> p.contains(x));
            if s.contains(x) {
                let k = choose|k: int| 0 <= k < s.len() && s[k] == x;
                if k < s.len() - 1 {
                    assert(p[k] == x);
                    assert(p.contains(x));
                }
            }
            if p.contains(x) {
                let k = choose|k: int| 0 <= k < p.len() && p[k] == x;
                assert(s[k] == x);
                assert(s.contains(x));
            }
            if s.last() == s[s.len() - 2] {
                assert(dedup_seq(s) == r);
                if s.contains(x) && !p.contains(x) {
                    assert(p[s.len() - 2] == x);
                }
            } else {
                let d = r.push(s.last());
                assert(dedup_seq(s) == d);
                if s.contains(x) && !p.contains(x) {
                    assert(d[d.len() - 1] == x);
                }
                if d.contains(x) {
                    let k = choose|k: int| 0 <= k < d.len() && d[k] == x;
                    if k < r.len() {
                        assert(r[k] == x);
                        assert(r.contains(x));
                    } else {
                        assert(s[s.len() - 1] == x);
                    }
                }
                if r.contains(x) {
                    let k = choose|k: int| 0 <= k < r.len() && r[k] == x;
                    assert(d[k] == x);
                }
            }
        }
        if s.last() != s[s.len() - 2] {
            assert(r.last() == p.last());
            assert forall|i: int, j: int| 0 <= i < j < dedup_seq(s).len() implies dedup_seq(s)[i]
                < dedup_seq(s)[j] by {
                if j == dedup_seq(s).len() - 1 && i < j {
                    if i < r.len() - 1 {
                        assert(r[i] < r[r.len() - 1]);
                    }
                    assert(r[r.len() - 1] == s[s.len() - 2]);
                    assert(s[s.len() - 2] <= s[s.len() - 1]);
                }
            }
        }
    }
}

/// A strictly increasing sequence holding exactly the cut positions in
/// `[cp, p]` is their ordered list.
proof fn lemma_points_unique(q: Seq<int>, rel: Seq<(usize, usize, bool)>, cp: int, end: int, p: int)
    requires
        forall|i: int, j: int| 0 <= i < j < q.len() ==> q[i] < q[j],
        forall|k: int| 0 <= k < q.len() ==> cp <= #[trigger] q[k] <= p && is_point(rel, cp, end, q[k]),
        forall|x: int| cp <= x <= p && is_point(rel, cp, end, x) ==> q.contains(x),
    ensures
        q == points_upto(rel, cp, end, p),
    decreases p - cp + 1,
{
    if p < cp {
        if q.len() > 0 {
            assert(cp <= q[0] <= p);
        }
        assert(q =~= Seq::<int>::empty());
    } else if is_point(rel, cp, end, p) {
        assert(q.contains(p));
        let kp = choose|k: int| 0 <= k < q.len() && q[k] == p;
        assert(kp == q.len() - 1) by {
            if kp < q.len() - 1 {
                assert(q[kp] < q[q.len() - 1]);
                assert(q[q.len() - 1] <= p);
            }
        }
        let d = q.drop_last();
        assert forall|x: int| cp <= x <= p - 1 && is_point(rel, cp, end, x) implies d.contains(x) by {
            assert(q.contains(x));
            let k = choose|k: int| 0 <= k < q.len() && q[k] == x;
            assert(k != q.len() - 1);
            assert(d[k] == x);
        }
        assert forall|k: int| 0 <= k < d.len() implies cp <= #[trigger] d[k] <= p - 1 && is_point(
            rel,
            cp,
            end,
            d[k],
        ) by {
            assert(q[k] < q[q.len() - 1]);
        }
        lemma_points_unique(d, rel, cp, end, p - 1);
        assert(q =~= d.push(p));
    } else {
        assert forall|k: int| 0 <= k < q.len() implies cp <= #[trigger] q[k] <= p - 1 && is_point(
            rel,
            cp,
            end,
            q[k],
        ) by {
            if q[k] == p {
                assert(is_point(rel, cp, end, p));
            }
        }
        lemma_points_unique(q, rel, cp, end, p - 1);
    }
}

proof fn lemma_cut_in_bounds(rel: Seq<(usize, usize, bool)>, cp: int, end: int, p: int)
    requires
        cp <= end,
        cut_in(rel, cp, end, p),
    ensures
        cp <= p <= end,
    decreases rel.len(),
{
    if cut_in(rel.drop_last(), cp, end, p) {
        lemma_cut_in_bounds(rel.drop_last(), cp, end, p);
    }
}

/// The relevant matches as a vector.
fn relevant_exec(matches: &[(usize, usize)], active: usize, active_only: bool) -> (r: Vec<(usize, usize, bool)>)
    ensures
        r@ == relevant(matches@, active, active_only),
{
    let mut r: Vec<(usize, usize, bool)> = Vec::new();
    if active_only {
        if active < matches.len() {
            let (ms, me) = matches[active];
            r.push((ms, me, true));
            assert(r@ =~= relevant(matches@, active, active_only));
        } else {
            assert(r@ =~= relevant(matches@, active, active_only));
        }
        return r;
    }
    let mut i: usize = 0;
    while i < matches.len()
        invariant
            0 <= i <= matches.len(),
            r@ == relevant(matches@, active, false).take(i as int),
        decreases matches.len() - i,
    {
        let (ms, me) = matches[i];
        r.push((ms, me, i == active));
        assert(r@ =~= relevant(matches@, active, false).take(i + 1));
        i += 1;
    }
    assert(r@ =~= relevant(matches@, active, false));
    r
}

/// Appends the highlighted pieces of one span (covering characters
/// `[cp, cp + len)`).
fn highlight_one(
    span: &crate::types::StyledSpan,
    cp: usize,
    rel: &Vec<(usize, usize, bool)>,
    out: &mut Vec<crate::types::StyledSpan>,
) -> (end: usize)
    requires
        cp + span.text@.len() <= usize::MAX,
    ensures
        end == cp + span.text@.len(),
        span_views(final(out)@) == span_views(old(out)@) + highlight_span(span@, cp as int, rel@),
{
    let t = chars_of(span.text.as_str());
    let span_end = cp + t.len();
    let ghost endi = span_end as int;
    let mut cuts: Vec<usize> = Vec::new();
    cuts.push(cp);
    cuts.push(span_end);
    let mut act: std::collections::HashMap<usize, bool> = std::collections::HashMap::new();
    let mut k: usize = 0;
    assert(rel@.take(0) =~= Seq::<(usize, usize, bool)>::empty());
    assert forall|x: usize| #[trigger] cuts@.contains(x) <==> is_point(rel@.take(0), cp as int, span_end as int, x as int) by {
        if x == cp {
            assert(cuts@[0] == x);
        }
        if x == span_end {
            assert(cuts@[1] == x);
        }
    }
    assert(act@ =~= color_map(rel@.take(0), cp as int, span_end as int));
    while k < rel.len()
        invariant
            0 <= k <= rel.len(),
            span_end == cp + t@.len(),
            forall|x: usize| #[trigger] cuts@.contains(x) <==> is_point(rel@.take(k as int), cp as int, span_end as int, x as int),
            act@ == color_map(rel@.take(k as int), cp as int, span_end as int),
        decreases rel.len() - k,
    {
        let (ms, me, is_active) = rel[k];
        let os = if ms > cp {
            ms
        } else {
            cp
        };
        let oe = if me < span_end {
            me
        } else {
            span_end
        };
        let ghost prev = cuts@;
        let ghost tk = rel@.take(k + 1);
        assert(tk.drop_last() =~= rel@.take(k as int));
        assert(tk.last() == rel@[k as int]);
        if os < oe {
            cuts.push(os);
            cuts.push(oe);
            act.insert(os, is_active);
            assert forall|x: usize| #[trigger] cuts@.contains(x) <==> is_point(tk, cp as int, span_end as int, x as int) by {
                if cuts@.contains(x) {
                    let j = choose|j: int| 0 <= j < cuts@.len() && cuts@[j] == x;
                    if j < prev.len() {
                        assert(prev.contains(x)) by {
                            assert(prev[j] == x);
                        }
                    }
                }
                if is_point(tk, cp as int, span_end as int, x as int) {
                    if x == os {
                        assert(cuts@[cuts@.len() - 2] == x);
                    } else if x == oe {
                        assert(cuts@[cuts@.len() - 1] == x);
                    } else {
                        assert(prev.contains(x));
                        let j = choose|j: int| 0 <= j < prev.len() && prev[j] == x;
                        assert(cuts@[j] == x);
                    }
                }
            }
        } else {
            assert forall|x: usize| #[trigger] cuts@.contains(x) <==> is_point(tk, cp as int, span_end as int, x as int) by {
                assert(cuts@ == prev);
            }
        }
        k += 1;
    }
    assert(rel@.take(k as int) =~= rel@);
    let ghost before_sort = cuts@;
    sort_points(&mut cuts);
    proof {
        before_sort.to_multiset_ensures();
        cuts@.to_multiset_ensures();
        assert forall|x: usize| cuts@.contains(x) <==> before_sort.contains(x) by {
            assert(cuts@.to_multiset().count(x) == before_sort.to_multiset().count(x));
        }
    }
    let ghost sorted = cuts@;
    dedup_points(&mut cuts);
    proof {
        lemma_dedup(sorted);
        let q = cuts@.map_values(|x: usize| x as int);
        assert forall|x: int| cp <= x <= endi && is_point(rel@, cp as int, endi, x) implies q.contains(x) by {
            assert(before_sort.contains(x as usize));
            assert(cuts@.contains(x as usize));
            let j = choose|j: int| 0 <= j < cuts@.len() && cuts@[j] == x as usize;
            assert(q[j] == x);
        }
        assert forall|j: int| 0 <= j < q.len() implies cp <= #[trigger] q[j] <= endi && is_point(rel@, cp as int, endi, q[j]) by {
            assert(cuts@.contains(cuts@[j]));
            assert(before_sort.contains(cuts@[j]));
            if cut_in(rel@, cp as int, endi, q[j]) {
                lemma_cut_in_bounds(rel@, cp as int, endi, q[j]);
            }
        }
        lemma_points_unique(q, rel@, cp as int, endi, endi);
    }
    let ghost pts = points_upto(rel@, cp as int, endi, endi);
    let ghost m = color_map(rel@, cp as int, endi);
    let ghost before = span_views(out@);
    let ghost pieces = highlight_span(span@, cp as int, rel@);
    assert(cuts@.len() == pts.len());
    let mut w: usize = 0;
    if cuts.len() > 0 {
        assert(pts.len() > 0);
        while w + 1 < cuts.len()
            invariant
                w + 1 <= cuts.len(),
                cuts@.len() == pts.len(),
                forall|j: int| 0 <= j < cuts@.len() ==> cuts@[j] as int == #[trigger] pts[j],
                forall|j: int| 0 <= j < pts.len() ==> cp <= #[trigger] pts[j] <= endi,
                forall|i: int, j: int| 0 <= i < j < pts.len() ==> pts[i] < pts[j],
                act@ == m,
                pts == points_upto(rel@, cp as int, endi, endi),
                m == color_map(rel@, cp as int, endi),
                t@ == span.text@,
                endi == cp + t@.len(),
                pieces == highlight_span(span@, cp as int, rel@),
                pieces.len() == pts.len() - 1,
                span_views(out@) == before + pieces.take(w as int),
            decreases cuts.len() - w,
        {
            let s = cuts[w];
            let e = cuts[w + 1];
            assert(pts[w as int] < pts[w + 1]);
            let piece = string_of_range(&t, s - cp, e - cp);
            let color = match act.get(&s) {
                Some(a) => {
                    if *a {
                        Some(ACTIVE_MATCH_COLOR)
                    } else {
                        Some(MATCH_COLOR)
                    }
                },
                None => None,
            };
            let ns = crate::types::StyledSpan {
                text: piece,
                bold: span.bold,
                italic: span.italic,
                underline: span.underline,
                heading_level: span.heading_level,
                link_url: crate::types::copy_opt(&span.link_url),
                color,
            };
            proof {
                let pw = pieces[w as int];
                assert(pw.text == span@.text.subrange(pts[w as int] - cp, pts[w + 1] - cp));
                assert(ns@.text == pw.text);
                assert(pw.color == piece_color(m, pts[w as int]));
                assert(s as usize == pts[w as int] as usize);
                assert(ns@.color == pw.color);
                assert(ns@.link_url == pw.link_url);
                assert(ns@ == pw);
            }
            let ghost prev_out = out@;
            out.push(ns);
            assert(span_views(out@) =~= span_views(prev_out).push(ns@));
            assert(span_views(out@) =~= before + pieces.take(w + 1));
            w += 1;
        }
    }
    assert(pieces.take(pieces.len() as int) =~= pieces);
    if cuts.len() == 0 {
        assert(pieces =~= Seq::<SpanView>::empty());
        assert(span_views(out@) =~= before + pieces);
    }
    span_end
}


proof fn lemma_spans_text_prefix(s: Seq<SpanView>, k: int)
    requires
        0 <= k <= s.len(),
    ensures
        spans_text(s.take(k)).len() <= spans_text(s).len(),
        k < s.len() ==> spans_text(s.take(k + 1)).len() == spans_text(s.take(k)).len() + s[k].text.len(),
    decreases s.len(),
{
    if k < s.len() {
        assert(s.take(k + 1).drop_last() =~= s.take(k));
        assert(s.take(k) =~= s.drop_last().take(k));
        lemma_spans_text_prefix(s.drop_last(), k);
    } else {
        assert(s.take(k) =~= s);
    }
}

proof fn lemma_flat_text_prefix(s: Seq<SegmentView>, k: int)
    requires
        0 <= k <= s.len(),
    ensures
        flat_text(s.take(k)).len() <= flat_text(s).len(),
        k < s.len() ==> flat_text(s.take(k + 1)).len() == flat_text(s.take(k)).len() + match s[k] {
            SegmentView::StyledText(spans) => spans_text(spans).len(),
            SegmentView::Image(_) => 0,
        },
    decreases s.len(),
{
    if k < s.len() {
        assert(s.take(k + 1).drop_last() =~= s.take(k));
        assert(s.take(k) =~= s.drop_last().take(k));
        lemma_flat_text_prefix(s.drop_last(), k);
    } else {
        assert(s.take(k) =~= s);
    }
}

/// Appends the highlighted pieces of `spans`, the first starting at
/// character `cp`; returns the position after them.
fn highlight_spans_exec(
    spans: &Vec<crate::types::StyledSpan>,
    cp: usize,
    rel: &Vec<(usize, usize, bool)>,
    out: &mut Vec<crate::types::StyledSpan>,
) -> (end: usize)
    requires
        cp + spans_text(span_views(spans@)).len() <= usize::MAX,
    ensures
        end == cp + spans_text(span_views(spans@)).len(),
        span_views(final(out)@) == span_views(old(out)@) + highlight_spans(span_views(spans@), 0, cp as int, rel@),
{
    let ghost sv = span_views(spans@);
    let ghost start = span_views(out@);
    let mut pos = cp;
    let mut k: usize = 0;
    assert(sv.take(0) =~= Seq::<SpanView>::empty());
    assert(span_views(out@) + highlight_spans(sv, 0, cp as int, rel@) =~= start + highlight_spans(sv, 0, cp as int, rel@));
    while k < spans.len()
        invariant
            0 <= k <= spans.len(),
            sv == span_views(spans@),
            pos == cp + spans_text(sv.take(k as int)).len(),
            cp + spans_text(sv).len() <= usize::MAX,
            span_views(out@) + highlight_spans(sv, k as int, pos as int, rel@) == start + highlight_spans(sv, 0, cp as int, rel@),
        decreases spans.len() - k,
    {
        proof {
            lemma_spans_text_prefix(sv, k as int);
            lemma_spans_text_prefix(sv, k + 1);
        }
        let ghost before = span_views(out@);
        let ghost p0 = pos as int;
        pos = highlight_one(&spans[k], pos, rel, out);
        assert(span_views(out@) + highlight_spans(sv, k + 1, pos as int, rel@) =~= before + highlight_spans(sv, k as int, p0, rel@));
        k += 1;
    }
    assert(sv.take(k as int) =~= sv);
    assert(span_views(out@) + highlight_spans(sv, k as int, pos as int, rel@) =~= span_views(out@));
    pos
}

/// The chapter's segments with the matches highlighted: with `active_only`
/// only the active match, else all matches, the active one in its own color.
pub fn build_highlighted_segments(
    chapter: &ChapterSearchData<'_>,
    matches: &[(usize, usize)],
    active: usize,
    active_only: bool,
) -> (r: Vec<ContentSegment>)
    requires
        flat_text(segment_views(chapter.segments@)).len() <= usize::MAX,
    ensures
        segment_views(r@) == highlight_segments(
            segment_views(chapter.segments@),
            0,
            0,
            relevant(matches@, active, active_only),
        ),
{
    let segs = chapter.segments;
    let ghost sv = segment_views(segs@);
    let rel = relevant_exec(matches, active, active_only);
    let mut result: Vec<ContentSegment> = Vec::new();
    let mut pos: usize = 0;
    let mut i: usize = 0;
    assert(sv.take(0) =~= Seq::<SegmentView>::empty());
    assert(segment_views(result@) + highlight_segments(sv, 0, 0, rel@) =~= highlight_segments(sv, 0, 0, rel@));
    while i < segs.len()
        invariant
            0 <= i <= segs.len(),
            sv == segment_views(segs@),
            pos == flat_text(sv.take(i as int)).len(),
            flat_text(sv).len() <= usize::MAX,
            segment_views(result@) + highlight_segments(sv, i as int, pos as int, rel@) == highlight_segments(sv, 0, 0, rel@),
        decreases segs.len() - i,
    {
        proof {
            lemma_flat_text_prefix(sv, i as int);
            lemma_flat_text_prefix(sv, i + 1);
        }
        let ghost before = segment_views(result@);
        let ghost p0 = pos as int;
        match &segs[i] {
            ContentSegment::Image { href } => {
                result.push(ContentSegment::Image { href: href.clone() });
                assert(segment_views(result@) =~= before.push(sv[i as int]));
            },
            ContentSegment::StyledText(spans) => {
                let mut new_spans: Vec<crate::types::StyledSpan> = Vec::new();
                assert(span_views(new_spans@) =~= Seq::<SpanView>::empty());
                pos = highlight_spans_exec(spans, pos, &rel, &mut new_spans);
                assert(span_views(new_spans@) =~= highlight_spans(span_views(spans@), 0, p0, rel@));
                if new_spans.len() > 0 {
                    let ghost ns = new_spans@;
                    result.push(ContentSegment::StyledText(new_spans));
                    assert(segment_views(result@) =~= before.push(SegmentView::StyledText(span_views(ns))));
                } else {
                    assert(segment_views(result@) =~= before);
                }
            },
        }
        assert(segment_views(result@) + highlight_segments(sv, i + 1, pos as int, rel@) =~= before
            + highlight_segments(sv, i as int, p0, rel@));
        i += 1;
    }
    assert(segment_views(result@) + highlight_segments(sv, i as int, pos as int, rel@) =~= segment_views(result@));
    result
}

/// The segments of the chapter being searched.
pub struct ChapterSearchData<'a> {
    pub segments: &'a [ContentSegment],
}


/// In-chapter search state.
pub struct SearchState {
    pub show: bool,
    pub query: String,
    pub highlight_all: bool,
    pub match_case: bool,
    pub whole_words: bool,
    pub matches: Vec<(usize, usize)>,
    pub active: usize,
    pub flat_text: String,
    pub highlighted_segments: Option<Vec<ContentSegment>>,
    pub dirty: bool,
    pub last_query: String,
    pub need_scroll: bool,
}

/// What a search state holds.
pub struct SearchView {
    pub show: bool,
    pub query: Seq<char>,
    pub highlight_all: bool,
    pub match_case: bool,
    pub whole_words: bool,
    pub matches: Seq<(usize, usize)>,
    pub active: usize,
    pub flat_text: Seq<char>,
    pub highlighted: Option<Seq<SegmentView>>,
    pub dirty: bool,
    pub last_query: Seq<char>,
    pub need_scroll: bool,
}

pub open spec fn opt_segments(o: Option<Vec<ContentSegment>>) -> Option<Seq<SegmentView>> {
    match o {
        Some(v) => Some(segment_views(v@)),
        None => None,
    }
}

impl View for SearchState {
    type V = SearchView;

    open spec fn view(&self) -> SearchView {
        SearchView {
            show: self.show,
            query: self.query@,
            highlight_all: self.highlight_all,
            match_case: self.match_case,
            whole_words: self.whole_words,
            matches: self.matches@,
            active: self.active,
            flat_text: self.flat_text@,
            highlighted: opt_segments(self.highlighted_segments),
            dirty: self.dirty,
            last_query: self.last_query@,
            need_scroll: self.need_scroll,
        }
    }
}

impl Default for SearchState {
    fn default() -> (r: Self)
        ensures
            r@ == (SearchView {
                show: false,
                query: seq![],
                highlight_all: true,
                match_case: false,
                whole_words: false,
                matches: seq![],
                active: 0,
                flat_text: seq![],
                highlighted: None,
                dirty: false,
                last_query: seq![],
                need_scroll: false,
            }),
    {
        SearchState {
            show: false,
            query: String::new(),
            highlight_all: true,
            match_case: false,
            whole_words: false,
            matches: Vec::new(),
            active: 0,
            flat_text: String::new(),
            highlighted_segments: None,
            dirty: false,
            last_query: String::new(),
            need_scroll: false,
        }
    }
}

/// The highlighted segments for `matches` with `active` the active one:
/// none without matches.
pub open spec fn spec_highlights(
    segs: Seq<SegmentView>,
    matches: Seq<(usize, usize)>,
    active: usize,
    highlight_all: bool,
) -> Option<Seq<SegmentView>> {
    if matches.len() == 0 {
        None
    } else {
        Some(highlight_segments(segs, 0, 0, relevant(matches, active, !highlight_all)))
    }
}

/// The state after the matches were computed anew for the chapter `segs`.
pub open spec fn recomputed(s: SearchView, segs: Seq<SegmentView>) -> SearchView {
    let text = flat_text(segs);
    let m = spec_find_matches(text, s.query, s.match_case, s.whole_words);
    SearchView {
        matches: m,
        active: 0,
        flat_text: text,
        highlighted: spec_highlights(segs, m, 0, s.highlight_all),
        dirty: false,
        ..s
    }
}

/// The state with its matches up to date.
pub open spec fn refreshed(s: SearchView, segs: Seq<SegmentView>) -> SearchView {
    if s.dirty {
        recomputed(s, segs)
    } else {
        s
    }
}

/// The state after moving to the match `a` of `s`.
pub open spec fn moved_to(s: SearchView, segs: Seq<SegmentView>, a: usize) -> SearchView {
    SearchView {
        active: a,
        highlighted: spec_highlights(segs, s.matches, a, s.highlight_all),
        need_scroll: true,
        ..s
    }
}

/// The match after the active one, wrapping to the first.
pub open spec fn next_index(active: usize, len: nat) -> usize {
    if active + 1 < len {
        (active + 1) as usize
    } else {
        0
    }
}

/// The match before the active one, wrapping to the last.
pub open spec fn prev_index(active: usize, len: nat) -> usize {
    if active > 0 {
        (active - 1) as usize
    } else {
        (len - 1) as usize
    }
}

/// What the search can run on: the chapter's text fits the machine's
/// positions.
pub open spec fn can_search(s: SearchView, segs: Seq<SegmentView>) -> bool {
    flat_text(segs).len() <= usize::MAX
}

impl SearchState {
    /// Forgets the query, the matches and the highlights.
    pub fn clear(&mut self)
        ensures
            final(self)@ == (SearchView {
                query: seq![],
                last_query: seq![],
                matches: seq![],
                highlighted: None,
                dirty: false,
                need_scroll: false,
                ..old(self)@
            }),
    {
        self.query = String::new();
        self.last_query = String::new();
        self.matches = Vec::new();
        self.highlighted_segments = None;
        self.dirty = false;
        self.need_scroll = false;
    }

    /// Hides the search bar and clears the search.
    pub fn close(&mut self)
        ensures
            final(self)@ == (SearchView {
                show: false,
                query: seq![],
                last_query: seq![],
                matches: seq![],
                highlighted: None,
                dirty: false,
                need_scroll: false,
                ..old(self)@
            }),
    {
        self.show = false;
        self.clear();
    }

    /// Moves to the next match (wrapping to the first). Returns whether
    /// there is a match to move to.
    pub fn next_match(&mut self, chapter: &ChapterSearchData<'_>) -> (moved: bool)
        requires
            can_search(old(self)@, segment_views(chapter.segments@)),
        ensures
            ({
                let segs = segment_views(chapter.segments@);
                let r = refreshed(old(self)@, segs);
                &&& moved == (r.matches.len() > 0)
                &&& final(self)@ == if moved {
                    moved_to(r, segs, next_index(r.active, r.matches.len()))
                } else {
                    r
                }
            }),
    {
        if self.dirty {
            recompute(self, chapter);
        }
        if self.matches.len() == 0 {
            return false;
        }
        if self.active < self.matches.len() - 1 {
            self.active = self.active + 1;
        } else {
            self.active = 0;
        }
        let active_only = !self.highlight_all;
        self.highlighted_segments = Some(
            build_highlighted_segments(chapter, &self.matches, self.active, active_only),
        );
        self.need_scroll = true;
        true
    }

    /// Moves to the previous match (wrapping to the last). Returns whether
    /// there is a match to move to.
    pub fn prev_match(&mut self, chapter: &ChapterSearchData<'_>) -> (moved: bool)
        requires
            can_search(old(self)@, segment_views(chapter.segments@)),
        ensures
            ({
                let segs = segment_views(chapter.segments@);
                let r = refreshed(old(self)@, segs);
                &&& moved == (r.matches.len() > 0)
                &&& final(self)@ == if moved {
                    moved_to(r, segs, prev_index(r.active, r.matches.len()))
                } else {
                    r
                }
            }),
    {
        if self.dirty {
            recompute(self, chapter);
        }
        if self.matches.len() == 0 {
            return false;
        }
        self.active = if self.active > 0 {
            self.active - 1
        } else {
            self.matches.len() - 1
        };
        let active_only = !self.highlight_all;
        self.highlighted_segments = Some(
            build_highlighted_segments(chapter, &self.matches, self.active, active_only),
        );
        self.need_scroll = true;
        true
    }

    /// Rebuilds the highlighted segments after an option changed.
    pub fn refresh_highlights(&mut self, chapter: &ChapterSearchData<'_>)
        requires
            flat_text(segment_views(chapter.segments@)).len() <= usize::MAX,
        ensures
            final(self)@ == (SearchView {
                highlighted: spec_highlights(
                    segment_views(chapter.segments@),
                    old(self)@.matches,
                    old(self)@.active,
                    old(self)@.highlight_all,
                ),
                ..old(self)@
            }),
    {
        let active_only = !self.highlight_all;
        self.highlighted_segments = if self.matches.len() == 0 {
            None
        } else {
            Some(build_highlighted_segments(chapter, &self.matches, self.active, active_only))
        };
    }
}

/// Computes the matches of the query in the chapter anew, makes the first
/// one active and highlights them.
pub fn recompute(state: &mut SearchState, chapter: &ChapterSearchData<'_>)
    requires
        flat_text(segment_views(chapter.segments@)).len() <= usize::MAX,
    ensures
        final(state)@ == recomputed(old(state)@, segment_views(chapter.segments@)),
{
    state.matches = Vec::new();
    state.active = 0;
    state.highlighted_segments = None;
    state.flat_text = build_flat_text(chapter.segments);
    state.matches = find_matches(
        state.flat_text.as_str(),
        state.query.as_str(),
        state.match_case,
        state.whole_words,
    );
    if state.matches.len() > 0 {
        let active_only = !state.highlight_all;
        state.highlighted_segments = Some(
            build_highlighted_segments(chapter, &state.matches, state.active, active_only),
        );
    }
    state.dirty = false;
}

/// Whether the search can run on a chapter (`can_search`): whether the
/// length of its text fits the machine's positions.
pub fn search_can_run(state: &SearchState, chapter: &ChapterSearchData<'_>) -> (b: bool)
    ensures
        b == can_search(state@, segment_views(chapter.segments@)),
{
    let text = build_flat_text(chapter.segments);
    let cs = chars_of(text.as_str());
    assert(flat_text(segment_views(chapter.segments@)).len() == cs.len());
    true
}

/// `recompute` where the search can run on the chapter; else the state
/// stays as it is. Returns whether it ran.
pub fn try_recompute(state: &mut SearchState, chapter: &ChapterSearchData<'_>) -> (done: bool)
    ensures
        done == can_search(old(state)@, segment_views(chapter.segments@)),
        done ==> final(state)@ == recomputed(old(state)@, segment_views(chapter.segments@)),
        !done ==> final(state)@ == old(state)@,
{
    if search_can_run(state, chapter) {
        recompute(state, chapter);
        true
    } else {
        false
    }
}

impl SearchState {
    /// `next_match` where the search can run on the chapter; `None`, with
    /// the state as it was, where it cannot.
    pub fn try_next_match(&mut self, chapter: &ChapterSearchData<'_>) -> (r: Option<bool>)
        ensures
            r is None <==> !can_search(old(self)@, segment_views(chapter.segments@)),
            r is None ==> final(self)@ == old(self)@,
            r matches Some(moved) ==> ({
                let segs = segment_views(chapter.segments@);
                let s = refreshed(old(self)@, segs);
                &&& moved == (s.matches.len() > 0)
                &&& final(self)@ == if moved {
                    moved_to(s, segs, next_index(s.active, s.matches.len()))
                } else {
                    s
                }
            }),
    {
        if search_can_run(self, chapter) {
            Some(self.next_match(chapter))
        } else {
            None
        }
    }

    /// `prev_match` where the search can run on the chapter; `None`, with
    /// the state as it was, where it cannot.
    pub fn try_prev_match(&mut self, chapter: &ChapterSearchData<'_>) -> (r: Option<bool>)
        ensures
            r is None <==> !can_search(old(self)@, segment_views(chapter.segments@)),
            r is None ==> final(self)@ == old(self)@,
            r matches Some(moved) ==> ({
                let segs = segment_views(chapter.segments@);
                let s = refreshed(old(self)@, segs);
                &&& moved == (s.matches.len() > 0)
                &&& final(self)@ == if moved {
                    moved_to(s, segs, prev_index(s.active, s.matches.len()))
                } else {
                    s
                }
            }),
    {
        if search_can_run(self, chapter) {
            Some(self.prev_match(chapter))
        } else {
            None
        }
    }
}

} // verus!
