//! Properties that hold of the library's operations on all inputs.

use vstd::prelude::*;
use crate::conversation::{safe_char, spec_filename_from_stem};
use crate::paths::{decode_component, find_either, push_component, push_components, spec_resolve_path, split, split_from, unescape_from, without_query};
use crate::text::join;
use crate::reader::spec_guess_mime;
use crate::search::{SearchState, spec_highlights, folded, ranges_from, spec_find_matches, word_end_ok, word_start_ok, moved_to, refreshed, flat_text, highlight_segments, highlight_span, highlight_spans, is_point, next_index, points_upto, prev_index, spans_text};
use crate::types::{SegmentView, SpanView};
use crate::ncx::{NavState, NcxState, attach_all, nav_run, nav_step, ncx_run, ncx_step, spec_parse_nav, spec_parse_ncx, with_top};
use crate::toc::{TocNode, attach_node, empty_node};
use crate::xml::{EventView, is_terminal};
use crate::markdown::{TagScan, after_last_newline, rewrite_from, spec_rewrite_links_and_images, spec_strip_raw_html, spec_trim_leading_blank_lines, strip_tags_from};
use crate::session::{spec_add_recent, spec_clamp_selection, spec_restored_chapter, without};
use vstd::utf8::{encode_scalar, encode_utf8, encode_utf8_decode_utf8, encode_utf8_valid_utf8, has_width_1_encoding};
use crate::html::{find_sub, lemma_find_sub};
use crate::text::{is_ws, lemma_skip_ws, skip_ws, starts_with};

verus! {

// ─── Search ──────────────────────────────────────────────────────────────

proof fn lemma_ranges_ordered(text: Seq<char>, tf: Seq<char>, qf: Seq<char>, whole_words: bool, pos: int)
    ensures
        ({
            let r = ranges_from(text, tf, qf, whole_words, pos);
            &&& forall|k: int| 0 <= k < r.len() ==> (#[trigger] r[k]).0 <= r[k].1 && pos <= r[k].0
            &&& forall|i: int, j: int| 0 <= i < j < r.len() ==> (#[trigger] r[i]).0 < (#[trigger] r[j]).0
        }),
    decreases tf.len() + 1 - pos,
{
    match find_sub(tf, qf, pos) {
        None => {},
        Some(start) => {
            if !(start < pos || start + qf.len() > tf.len() || start + qf.len() > usize::MAX) {
                lemma_find_sub(tf, qf, pos);
                let end = start + qf.len();
                lemma_ranges_ordered(text, tf, qf, whole_words, start + 1);
                let rest = ranges_from(text, tf, qf, whole_words, start + 1);
                if !(whole_words && !(word_start_ok(text, start) && word_end_ok(text, end))) {
                    let h = (start as usize, end as usize);
                    let r = seq![h] + rest;
                    assert(ranges_from(text, tf, qf, whole_words, pos) == r);
                    assert(h.0 == start && h.1 == end);
                    assert forall|k: int| 0 <= k < r.len() implies (#[trigger] r[k]).0 <= r[k].1 && pos <= r[k].0 by {
                        if k > 0 {
                            assert(r[k] == rest[k - 1]);
                        }
                    }
                    assert forall|i: int, j: int| 0 <= i < j < r.len() implies (#[trigger] r[i]).0 < (#[trigger] r[j]).0 by {
                        assert(r[j] == rest[j - 1]);
                        if i > 0 {
                            assert(r[i] == rest[i - 1]);
                        }
                    }
                }
            }
        },
    }
}

/// The matches of a search come in reading order: each starts after the
/// one before it, and none ends before it starts.
pub proof fn law_matches_in_reading_order(text: Seq<char>, query: Seq<char>, match_case: bool, whole_words: bool)
    ensures
        ({
            let r = spec_find_matches(text, query, match_case, whole_words);
            &&& forall|k: int| 0 <= k < r.len() ==> (#[trigger] r[k]).0 <= r[k].1
            &&& forall|i: int, j: int| 0 <= i < j < r.len() ==> (#[trigger] r[i]).0 < (#[trigger] r[j]).0
        }),
{
    if query.len() > 0 {
        lemma_ranges_ordered(text, folded(text, match_case), folded(query, match_case), whole_words, 0);
    }
}

// ─── Paths ───────────────────────────────────────────────────────────────

/// A path that starts at the root of the archive resolves the same whatever
/// directory it is read from.
pub proof fn law_root_relative_ignores_base(base1: Seq<char>, base2: Seq<char>, href: Seq<char>)
    requires
        href.len() > 0,
        href[0] == '/',
    ensures
        spec_resolve_path(base1, href) == spec_resolve_path(base2, href),
{
    let k = find_either(href, '?', '#', 0);
    lemma_find_either_bound(href, '?', '#', 1);
    assert(k == find_either(href, '?', '#', 1));
    assert(k >= 1);
    let h = without_query(href);
    assert(h[0] == '/');
    assert(h.subrange(0, 1) =~= seq!['/']);
    assert(starts_with(h, seq!['/']));
}

proof fn lemma_find_either_bound(s: Seq<char>, a: char, b: char, i: int)
    requires
        0 <= i <= s.len(),
    ensures
        i <= find_either(s, a, b, i) <= s.len(),
        forall|j: int| i <= j < find_either(s, a, b, i) ==> s[j] != a && s[j] != b,
    decreases s.len() - i,
{
    if i < s.len() && s[i] != a && s[i] != b {
        lemma_find_either_bound(s, a, b, i + 1);
    }
}

proof fn lemma_find_either_none(s: Seq<char>, a: char, b: char, i: int)
    requires
        0 <= i <= s.len(),
        forall|j: int| i <= j < s.len() ==> s[j] != a && s[j] != b,
    ensures
        find_either(s, a, b, i) == s.len(),
    decreases s.len() - i,
{
    if i < s.len() {
        lemma_find_either_none(s, a, b, i + 1);
    }
}

/// A component of a canonical archive path: not empty, not `.` or `..`, and
/// without `/`, `?`, `#` or `%`.
pub open spec fn canonical_component(c: Seq<char>) -> bool {
    &&& c.len() > 0
    &&& c != seq!['.'] && c != seq!['.', '.']
    &&& !c.contains('/') && !c.contains('?') && !c.contains('#') && !c.contains('%')
}

pub open spec fn all_canonical(ps: Seq<Seq<char>>) -> bool {
    forall|k: int| 0 <= k < ps.len() ==> canonical_component(#[trigger] ps[k])
}

proof fn lemma_scalar_no_percent(c: char)
    requires
        c != '%',
    ensures
        forall|k: int| 0 <= k < encode_scalar(c as u32).len() ==> #[trigger] encode_scalar(c as u32)[k] != 37u8,
{
    let u = c as u32;
    assert(u != 37);
    if has_width_1_encoding(u) {
        assert((u & 0x7F) as u8 != 37u8) by (bit_vector)
            requires
                u <= 0x7F,
                u != 37,
        ;
    } else {
        assert(0xC0u8 | ((u >> 6) & 0x1F) as u8 != 37u8) by (bit_vector);
        assert(0xE0u8 | ((u >> 12) & 0x0F) as u8 != 37u8) by (bit_vector);
        assert(0xF0u8 | ((u >> 18) & 0x7) as u8 != 37u8) by (bit_vector);
        assert(0x80u8 | (u & 0x3F) as u8 != 37u8) by (bit_vector);
        assert(0x80u8 | ((u >> 6) & 0x3F) as u8 != 37u8) by (bit_vector);
        assert(0x80u8 | ((u >> 12) & 0x3F) as u8 != 37u8) by (bit_vector);
    }
}

proof fn lemma_encode_no_percent(c: Seq<char>)
    requires
        !c.contains('%'),
    ensures
        forall|k: int| 0 <= k < encode_utf8(c).len() ==> #[trigger] encode_utf8(c)[k] != 37u8,
    decreases c.len(),
{
    if c.len() > 0 {
        assert(c[0] != '%');
        lemma_scalar_no_percent(c[0]);
        let t = c.drop_first();
        assert forall|j: int| 0 <= j < t.len() implies t[j] != '%' by {
            assert(t[j] == c[j + 1]);
        }
        lemma_encode_no_percent(t);
        let a = encode_scalar(c[0] as u32);
        let b = encode_utf8(t);
        assert(encode_utf8(c) == a + b);
        assert forall|k: int| 0 <= k < (a + b).len() implies (a + b)[k] != 37u8 by {
            if k < a.len() {
                assert((a + b)[k] == a[k]);
            } else {
                assert((a + b)[k] == b[k - a.len()]);
            }
        }
    }
}

proof fn lemma_unescape_plain(b: Seq<u8>, i: int)
    requires
        0 <= i <= b.len(),
        forall|k: int| 0 <= k < b.len() ==> #[trigger] b[k] != 37u8,
    ensures
        unescape_from(b, i) == b.skip(i),
    decreases b.len() - i,
{
    if i < b.len() {
        lemma_unescape_plain(b, i + 1);
        assert(b.skip(i) =~= seq![b[i]] + b.skip(i + 1));
    } else {
        assert(b.skip(i) =~= Seq::<u8>::empty());
    }
}

proof fn lemma_decode_plain(c: Seq<char>)
    requires
        !c.contains('%'),
    ensures
        decode_component(c) == c,
{
    lemma_encode_no_percent(c);
    lemma_unescape_plain(encode_utf8(c), 0);
    assert(encode_utf8(c).skip(0) =~= encode_utf8(c));
    encode_utf8_valid_utf8(c);
    encode_utf8_decode_utf8(c);
}

proof fn lemma_split_avoids(s: Seq<char>, sep: char, i: int, cur: Seq<char>, acc: Seq<Seq<char>>, x: char)
    requires
        0 <= i,
        x == sep || !s.contains(x),
        !cur.contains(x),
        forall|k: int| 0 <= k < acc.len() ==> !(#[trigger] acc[k]).contains(x),
    ensures
        forall|k: int|
            0 <= k < split_from(s, sep, i, cur, acc).len() ==> !(#[trigger] split_from(s, sep, i, cur, acc)[k]).contains(
                x,
            ),
    decreases s.len() - i,
{
    if i < s.len() {
        if s[i] == sep {
            let a2 = acc.push(cur);
            assert forall|k: int| 0 <= k < a2.len() implies !(#[trigger] a2[k]).contains(x) by {
                if k < acc.len() {
                    assert(a2[k] == acc[k]);
                }
            }
            let e2 = Seq::<char>::empty();
            assert(!e2.contains(x));
            lemma_split_avoids(s, sep, i + 1, e2, a2, x);
            assert(split_from(s, sep, i, cur, acc) == split_from(s, sep, i + 1, e2, a2));
        } else {
            let c2 = cur.push(s[i]);
            assert(s[i] != x);
            assert forall|j: int| 0 <= j < c2.len() implies c2[j] != x by {
                if j < cur.len() {
                    assert(c2[j] == cur[j]);
                } else {
                    assert(c2[j] == s[i]);
                }
            }
            lemma_split_avoids(s, sep, i + 1, c2, acc, x);
            assert(split_from(s, sep, i, cur, acc) == split_from(s, sep, i + 1, c2, acc));
        }
    } else {
        let a2 = acc.push(cur);
        assert(split_from(s, sep, i, cur, acc) == a2);
        assert forall|k: int| 0 <= k < a2.len() implies !(#[trigger] a2[k]).contains(x) by {
            if k < acc.len() {
                assert(a2[k] == acc[k]);
            }
        }
    }
}

/// The pieces of `s` split at `/` avoid `/` and any character `s` avoids.
proof fn lemma_split_clean(s: Seq<char>)
    requires
        !s.contains('?'),
        !s.contains('#'),
        !s.contains('%'),
    ensures
        forall|k: int|
            0 <= k < split(s, '/').len() ==> {
                let p = #[trigger] split(s, '/')[k];
                !p.contains('/') && !p.contains('?') && !p.contains('#') && !p.contains('%')
            },
{
    let e = Seq::<Seq<char>>::empty();
    lemma_split_avoids(s, '/', 0, seq![], e, '/');
    lemma_split_avoids(s, '/', 0, seq![], e, '?');
    lemma_split_avoids(s, '/', 0, seq![], e, '#');
    lemma_split_avoids(s, '/', 0, seq![], e, '%');
}

proof fn lemma_push_canonical(parts: Seq<Seq<char>>, comps: Seq<Seq<char>>)
    requires
        all_canonical(parts),
        forall|k: int|
            0 <= k < comps.len() ==> {
                let p = #[trigger] comps[k];
                !p.contains('/') && !p.contains('?') && !p.contains('#') && !p.contains('%')
            },
    ensures
        all_canonical(push_components(parts, comps)),
    decreases comps.len(),
{
    if comps.len() > 0 {
        let init = comps.drop_last();
        assert forall|k: int| 0 <= k < init.len() implies {
            let p = #[trigger] init[k];
            !p.contains('/') && !p.contains('?') && !p.contains('#') && !p.contains('%')
        } by {
            assert(init[k] == comps[k]);
        }
        lemma_push_canonical(parts, init);
        let p = push_components(parts, init);
        let c = comps.last();
        assert(c == comps[comps.len() - 1]);
        if c.len() == 0 || c == seq!['.'] {
        } else if c == seq!['.', '.'] {
            if p.len() > 0 {
                assert forall|k: int| 0 <= k < p.drop_last().len() implies canonical_component(
                    #[trigger] p.drop_last()[k],
                ) by {
                    assert(p.drop_last()[k] == p[k]);
                }
            }
        } else {
            lemma_decode_plain(c);
            let q = p.push(c);
            assert forall|k: int| 0 <= k < q.len() implies canonical_component(#[trigger] q[k]) by {
                if k < p.len() {
                    assert(q[k] == p[k]);
                }
            }
        }
    }
}

proof fn lemma_push_same(ps: Seq<Seq<char>>)
    requires
        all_canonical(ps),
    ensures
        push_components(seq![], ps) == ps,
    decreases ps.len(),
{
    if ps.len() > 0 {
        let init = ps.drop_last();
        assert forall|k: int| 0 <= k < init.len() implies canonical_component(#[trigger] init[k]) by {
            assert(init[k] == ps[k]);
        }
        lemma_push_same(init);
        assert(canonical_component(ps[ps.len() - 1]));
        lemma_decode_plain(ps.last());
        assert(init.push(ps.last()) =~= ps);
    }
}

proof fn lemma_join_front(ps: Seq<Seq<char>>, sep: Seq<char>)
    requires
        ps.len() >= 2,
    ensures
        join(ps, sep) == ps[0] + sep + join(ps.skip(1), sep),
    decreases ps.len(),
{
    let init = ps.drop_last();
    if ps.len() == 2 {
        assert(ps.skip(1) =~= seq![ps[1]]);
        assert(init =~= seq![ps[0]]);
        assert(join(init, sep) == ps[0]);
        assert(join(ps.skip(1), sep) == ps[1]);
        assert(join(ps, sep) == join(init, sep) + sep + ps.last());
    } else {
        lemma_join_front(init, sep);
        let a = ps[0];
        let b = join(init.skip(1), sep);
        let l = ps.last();
        assert(init.skip(1) =~= ps.skip(1).drop_last());
        assert(ps.skip(1).last() == ps.last());
        assert(init[0] == ps[0]);
        assert(join(ps.skip(1), sep) == join(ps.skip(1).drop_last(), sep) + sep + ps.skip(1).last());
        assert(join(ps, sep) == join(init, sep) + sep + l);
        assert((a + sep + b) + sep + l =~= a + sep + (b + sep + l));
    }
}

proof fn lemma_join_avoids(ps: Seq<Seq<char>>, sep: Seq<char>, x: char)
    requires
        !sep.contains(x),
        forall|k: int| 0 <= k < ps.len() ==> !(#[trigger] ps[k]).contains(x),
    ensures
        !join(ps, sep).contains(x),
    decreases ps.len(),
{
    if ps.len() > 1 {
        let init = ps.drop_last();
        assert forall|k: int| 0 <= k < init.len() implies !(#[trigger] init[k]).contains(x) by {
            assert(init[k] == ps[k]);
        }
        lemma_join_avoids(init, sep, x);
        let a = join(init, sep);
        let l = ps.last();
        assert(!l.contains(x)) by {
            assert(l == ps[ps.len() - 1]);
        }
        assert forall|j: int| 0 <= j < (a + sep + l).len() implies (a + sep + l)[j] != x by {
            if j < a.len() {
                assert((a + sep + l)[j] == a[j]);
            } else if j < a.len() + sep.len() {
                assert((a + sep + l)[j] == sep[j - a.len()]);
            } else {
                assert((a + sep + l)[j] == l[j - a.len() - sep.len()]);
            }
        }
    } else if ps.len() == 1 {
        assert(!ps[0].contains(x));
    }
}

proof fn lemma_scan_piece(s: Seq<char>, sep: char, i: int, j: int, cur: Seq<char>, acc: Seq<Seq<char>>)
    requires
        0 <= i <= j <= s.len(),
        forall|k: int| i <= k < j ==> s[k] != sep,
    ensures
        split_from(s, sep, i, cur, acc) == split_from(s, sep, j, cur + s.subrange(i, j), acc),
    decreases j - i,
{
    if i == j {
        assert(cur + s.subrange(i, j) =~= cur);
    } else {
        lemma_scan_piece(s, sep, i + 1, j, cur.push(s[i]), acc);
        assert(cur.push(s[i]) + s.subrange(i + 1, j) =~= cur + s.subrange(i, j));
    }
}

proof fn lemma_split_of_join(s: Seq<char>, i: int, cur: Seq<char>, acc: Seq<Seq<char>>, ps: Seq<Seq<char>>)
    requires
        0 <= i <= s.len(),
        ps.len() >= 1,
        forall|k: int| 0 <= k < ps.len() ==> !(#[trigger] ps[k]).contains('/'),
        s.skip(i) == join(ps, seq!['/']),
    ensures
        split_from(s, '/', i, cur, acc) == acc + seq![cur + ps[0]] + ps.skip(1),
    decreases ps.len(),
{
    let p0 = ps[0];
    if ps.len() == 1 {
        assert(s.skip(i) == p0);
        assert forall|k: int| i <= k < s.len() implies s[k] != '/' by {
            assert(s[k] == s.skip(i)[k - i]);
        }
        lemma_scan_piece(s, '/', i, s.len() as int, cur, acc);
        assert(s.subrange(i, s.len() as int) =~= p0);
        assert(acc + seq![cur + ps[0]] + ps.skip(1) =~= acc.push(cur + p0));
    } else {
        lemma_join_front(ps, seq!['/']);
        let rest = ps.skip(1);
        let j = i + p0.len();
        assert(s.skip(i) == p0 + seq!['/'] + join(rest, seq!['/']));
        assert forall|k: int| i <= k < j implies s[k] != '/' by {
            assert(s[k] == s.skip(i)[k - i]);
            assert(s.skip(i)[k - i] == p0[k - i]);
        }
        lemma_scan_piece(s, '/', i, j, cur, acc);
        assert(s.subrange(i, j) =~= p0);
        assert(s[j] == s.skip(i)[j - i]);
        assert(s[j] == '/');
        let jr = join(rest, seq!['/']);
        assert(s.skip(j + 1).len() == jr.len());
        assert forall|k: int| 0 <= k < jr.len() implies s.skip(j + 1)[k] == jr[k] by {
            assert(s.skip(j + 1)[k] == s[j + 1 + k]);
            assert(s[j + 1 + k] == s.skip(i)[j + 1 + k - i]);
            assert((p0 + seq!['/'] + jr)[p0.len() + 1 + k] == jr[k]);
        }
        assert(s.skip(j + 1) =~= jr);
        assert forall|k: int| 0 <= k < rest.len() implies !(#[trigger] rest[k]).contains('/') by {
            assert(rest[k] == ps[k + 1]);
        }
        lemma_split_of_join(s, j + 1, seq![], acc.push(cur + p0), rest);
        assert(seq![] + rest[0] =~= rest[0]);
        assert(acc.push(cur + p0) + seq![rest[0]] + rest.skip(1) =~= acc + seq![cur + ps[0]] + ps.skip(1));
    }
}

/// A path resolved from a base and an href without percent escapes (the
/// base also without query or fragment) is canonical: empty or made of
/// components that are neither empty, `.` nor `..`, without `?` or `#`. It
/// resolves to itself from the root, and a rooted href resolves as from
/// the root.
pub proof fn law_resolved_paths_are_canonical(base: Seq<char>, href: Seq<char>)
    requires
        !base.contains('%'),
        !href.contains('%'),
        !base.contains('?'),
        !base.contains('#'),
    ensures
        ({
            let r = spec_resolve_path(base, href);
            &&& r.len() == 0 || all_canonical(split(r, '/'))
            &&& !r.contains('?') && !r.contains('#')
            &&& spec_resolve_path(seq![], r) == r
            &&& starts_with(href, seq!['/']) ==> r == spec_resolve_path(seq![], href)
        }),
{
    let k0 = find_either(href, '?', '#', 0);
    lemma_find_either_bound(href, '?', '#', 0);
    let h = without_query(href);
    assert forall|j: int| 0 <= j < h.len() implies h[j] != '?' && h[j] != '#' && h[j] != '%' by {
        assert(h[j] == href[j]);
    }
    lemma_split_clean(base);
    lemma_split_clean(h);
    let e = Seq::<Seq<char>>::empty();
    lemma_push_canonical(e, split(base, '/'));
    let start = if starts_with(h, seq!['/']) {
        e
    } else {
        push_components(e, split(base, '/'))
    };
    lemma_push_canonical(start, split(h, '/'));
    let parts = push_components(start, split(h, '/'));
    let r = join(parts, seq!['/']);
    assert(r == spec_resolve_path(base, href));
    assert forall|k: int| 0 <= k < parts.len() implies !(#[trigger] parts[k]).contains('?') by {
        assert(canonical_component(parts[k]));
    }
    assert forall|k: int| 0 <= k < parts.len() implies !(#[trigger] parts[k]).contains('#') by {
        assert(canonical_component(parts[k]));
    }
    assert forall|k: int| 0 <= k < parts.len() implies !(#[trigger] parts[k]).contains('/') by {
        assert(canonical_component(parts[k]));
    }
    lemma_join_avoids(parts, seq!['/'], '?');
    lemma_join_avoids(parts, seq!['/'], '#');
    // The path read back from the root.
    lemma_find_either_none(r, '?', '#', 0);
    assert(without_query(r) =~= r);
    let empty_split = split(Seq::<char>::empty(), '/');
    assert(empty_split =~= seq![Seq::<char>::empty()]);
    assert(empty_split.drop_last() =~= Seq::<Seq<char>>::empty());
    assert(push_components(e, empty_split.drop_last()) == e);
    assert(push_components(e, empty_split) =~= e);
    if parts.len() > 0 {
        lemma_split_of_join(r, 0, seq![], e, parts);
        assert(r.skip(0) =~= r);
        assert(split(r, '/') =~= parts) by {
            assert(e + seq![Seq::<char>::empty() + parts[0]] + parts.skip(1) =~= parts);
        }
        lemma_push_same(parts);
        assert(canonical_component(parts[0]));
        if parts.len() == 1 {
            assert(r == parts[0]);
        } else {
            lemma_join_front(parts, seq!['/']);
        }
        assert(r[0] == parts[0][0]);
        assert(parts[0][0] != '/');
        assert(!starts_with(r, seq!['/']));
    } else {
        assert(r =~= Seq::<char>::empty());
        assert(!starts_with(r, seq!['/']));
        assert(split(r, '/') =~= seq![Seq::<char>::empty()]);
    }
    if starts_with(href, seq!['/']) {
        assert(href[0] == '/') by {
            assert(href.subrange(0, 1)[0] == href[0]);
        }
        law_root_relative_ignores_base(base, seq![], href);
    }
}

/// The query and fragment of an href play no part in the path it names.
pub proof fn law_query_and_fragment_ignored(base: Seq<char>, href: Seq<char>)
    ensures
        spec_resolve_path(base, href) == spec_resolve_path(base, without_query(href)),
{
    lemma_find_either_bound(href, '?', '#', 0);
    let h = without_query(href);
    lemma_find_either_none(h, '?', '#', 0);
    assert(h.take(h.len() as int) =~= h);
}

// ─── Search ──────────────────────────────────────────────────────────────

/// Moving to the next match and back returns to the match one started
/// from, and so does moving back and then forward.
pub proof fn law_next_and_prev_undo_each_other(active: usize, len: nat)
    requires
        active < len,
        len <= usize::MAX,
    ensures
        prev_index(next_index(active, len), len) == active,
        next_index(prev_index(active, len), len) == active,
{
}

/// On a search whose matches are up to date, moving to the next match and
/// then to the previous one leaves the search as moving to the active match
/// would: the same matches and active match, highlighted, scrolled to.
pub proof fn law_next_then_prev_restores_search(s: SearchState, segs: Seq<SegmentView>)
    requires
        !s.dirty,
        0 < s.matches.len(),
        s.active < s.matches.len(),
    ensures
        ({
            let v = s@;
            let n = moved_to(refreshed(v, segs), segs, next_index(v.active, v.matches.len()));
            let p = moved_to(refreshed(n, segs), segs, prev_index(n.active, n.matches.len()));
            &&& p == moved_to(v, segs, v.active)
            &&& p.matches == v.matches && p.active == v.active && p.need_scroll
            &&& p.highlighted == spec_highlights(segs, v.matches, v.active, v.highlight_all)
        }),
{
    broadcast use vstd::std_specs::vec::axiom_spec_len;
    law_next_and_prev_undo_each_other(s.active, s@.matches.len());
}

// ─── Reader state ────────────────────────────────────────────────────────

/// A selection kept in range lies within a non-empty list, and a selection
/// already within it stays.
pub proof fn law_clamped_selection_in_range(selection: usize, len: usize)
    ensures
        len > 0 ==> spec_clamp_selection(selection, len) < len,
        selection < len ==> spec_clamp_selection(selection, len) == selection,
{
}

/// The chapter a book reopens at is one of its chapters.
pub proof fn law_restored_chapter_in_range(keep: bool, saved: Option<usize>, count: usize)
    ensures
        count > 0 ==> spec_restored_chapter(keep, saved, count) < count,
        count == 0 ==> spec_restored_chapter(keep, saved, count) == 0,
{
}

proof fn lemma_without(s: Seq<Seq<char>>, x: Seq<char>)
    ensures
        !without(s, x).contains(x),
        without(s, x).len() <= s.len(),
        forall|y: Seq<char>| y != x && s.contains(y) ==> without(s, x).contains(y),
    decreases s.len(),
{
    if s.len() > 0 {
        lemma_without(s.drop_last(), x);
        let w = without(s.drop_last(), x);
        assert forall|y: Seq<char>| y != x && s.contains(y) implies without(s, x).contains(y) by {
            let k = choose|k: int| 0 <= k < s.len() && s[k] == y;
            if k < s.len() - 1 {
                assert(s.drop_last()[k] == y);
                assert(s.drop_last().contains(y));
                let j = choose|j: int| 0 <= j < w.len() && w[j] == y;
                if s.last() != x {
                    assert(w.push(s.last())[j] == y);
                }
            } else {
                assert(without(s, x) == w.push(y));
                assert(w.push(y)[w.len() as int] == y);
            }
        }
        if s.last() != x {
            assert forall|i: int| 0 <= i < w.push(s.last()).len() implies w.push(s.last())[i] != x by {
                if i < w.len() {
                    assert(w[i] != x);
                }
            }
        }
    }
}

/// After opening a file, it heads the recent files, appears there once,
/// every other recent file that still fits stays, and the list holds at
/// most twenty entries.
pub proof fn law_recent_file_heads_the_list(files: Seq<Seq<char>>, path: Seq<char>)
    ensures
        spec_add_recent(files, path)[0] == path,
        spec_add_recent(files, path).len() <= 20,
        forall|i: int| 0 < i < spec_add_recent(files, path).len() ==> spec_add_recent(files, path)[i] != path,
        files.len() < 20 ==> forall|y: Seq<char>| #[trigger] files.contains(y) ==> spec_add_recent(
            files,
            path,
        ).contains(y),
{
    lemma_without(files, path);
    let w = without(files, path);
    let l = seq![path] + w;
    assert(l[0] == path);
    assert forall|i: int| 0 < i < spec_add_recent(files, path).len() implies spec_add_recent(files, path)[i] != path by {
        assert(l[i] == w[i - 1]);
    }
    if files.len() < 20 {
        assert forall|y: Seq<char>| #[trigger] files.contains(y) implies spec_add_recent(files, path).contains(y) by {
            if y == path {
                assert(l[0] == y);
            } else {
                let j = choose|j: int| 0 <= j < w.len() && w[j] == y;
                assert(l[j + 1] == y);
            }
        }
    }
}

// ─── Names ───────────────────────────────────────────────────────────────

/// A book's conversation file is a plain file name: it ends in `.json` and
/// holds no path separator.
pub proof fn law_conversation_file_is_plain(stem: Option<Seq<char>>)
    ensures
        spec_filename_from_stem(stem).len() >= 5,
        spec_filename_from_stem(stem).skip(spec_filename_from_stem(stem).len() - 5) == ".json"@,
        !spec_filename_from_stem(stem).contains('/'),
{
    reveal_strlit(".json");
    reveal_strlit("unknown");
    let name = match stem {
        Some(s) => s,
        None => "unknown"@,
    };
    let safe = name.map_values(|c: char| safe_char(c));
    let f = spec_filename_from_stem(stem);
    assert(f == safe + ".json"@);
    assert(f.skip(f.len() - 5) =~= ".json"@);
    assert forall|i: int| 0 <= i < f.len() implies f[i] != '/' by {
        if i < safe.len() {
            assert(safe[i] == safe_char(name[i]));
        }
    }
}

/// The media type guessed for an image is an `image/` type.
pub proof fn law_guessed_mime_is_image(path: Seq<char>)
    ensures
        starts_with(spec_guess_mime(path), "image/"@),
{
    reveal_strlit("image/");
    reveal_strlit("image/png");
    reveal_strlit("image/jpeg");
    reveal_strlit("image/gif");
    reveal_strlit("image/webp");
    reveal_strlit("image/svg+xml");
    reveal_strlit("image/bmp");
    let m = spec_guess_mime(path);
    assert(m.len() >= 6);
    assert(m.take(6) =~= "image/"@);
}

// ─── Maps ────────────────────────────────────────────────────────────────

/// Reading a key of a string map gives back the value last written to it,
/// and writing one key leaves the others as they were.
pub proof fn law_map_reads_back_writes<V>(m: Map<Seq<char>, V>, k: Seq<char>, v: V, other: Seq<char>)
    requires
        other != k,
    ensures
        m.insert(k, v).contains_key(k),
        m.insert(k, v)[k] == v,
        m.insert(k, v).contains_key(other) == m.contains_key(other),
        m.contains_key(other) ==> m.insert(k, v)[other] == m[other],
{
}


// ─── Highlighting ────────────────────────────────────────────────────────

proof fn lemma_points(rel: Seq<(usize, usize, bool)>, cp: int, end: int, p: int)
    requires
        cp <= p,
    ensures
        points_upto(rel, cp, end, p).len() >= 1,
        points_upto(rel, cp, end, p)[0] == cp,
        is_point(rel, cp, end, p) ==> points_upto(rel, cp, end, p).last() == p,
        forall|i: int, j: int|
            0 <= i < j < points_upto(rel, cp, end, p).len() ==> points_upto(rel, cp, end, p)[i] < points_upto(
                rel,
                cp,
                end,
                p,
            )[j],
        forall|i: int|
            0 <= i < points_upto(rel, cp, end, p).len() ==> cp <= #[trigger] points_upto(rel, cp, end, p)[i] <= p,
    decreases p - cp,
{
    if p > cp {
        lemma_points(rel, cp, end, p - 1);
    } else {
        assert(points_upto(rel, cp, end, p - 1) =~= Seq::<int>::empty());
    }
}

proof fn lemma_spans_text_append(a: Seq<SpanView>, b: Seq<SpanView>)
    ensures
        spans_text(a + b) == spans_text(a) + spans_text(b),
    decreases b.len(),
{
    if b.len() == 0 {
        assert(a + b =~= a);
        assert(spans_text(a) + spans_text(b) =~= spans_text(a));
    } else {
        lemma_spans_text_append(a, b.drop_last());
        assert((a + b).drop_last() =~= a + b.drop_last());
        assert((a + b).last() == b.last());
        assert(spans_text(a) + spans_text(b) =~= spans_text(a) + spans_text(b.drop_last()) + b.last().text);
    }
}

proof fn lemma_flat_text_append(a: Seq<SegmentView>, b: Seq<SegmentView>)
    ensures
        flat_text(a + b) == flat_text(a) + flat_text(b),
    decreases b.len(),
{
    if b.len() == 0 {
        assert(a + b =~= a);
        assert(flat_text(a) + flat_text(b) =~= flat_text(a));
    } else {
        lemma_flat_text_append(a, b.drop_last());
        assert((a + b).drop_last() =~= a + b.drop_last());
        assert((a + b).last() == b.last());
        let piece = match b.last() {
            SegmentView::StyledText(spans) => spans_text(spans),
            SegmentView::Image(_) => seq![],
        };
        assert(flat_text(a) + flat_text(b) =~= flat_text(a) + flat_text(b.drop_last()) + piece);
    }
}

/// The pieces of a span, put back together, give the span's text.
proof fn lemma_span_pieces(sp: SpanView, cp: int, rel: Seq<(usize, usize, bool)>)
    ensures
        spans_text(highlight_span(sp, cp, rel)) == sp.text,
{
    let end = cp + sp.text.len();
    let pts = points_upto(rel, cp, end, end);
    let pieces = highlight_span(sp, cp, rel);
    lemma_points(rel, cp, end, end);
    assert(is_point(rel, cp, end, end));
    let n = pts.len() - 1;
    assert(pieces.len() == n);
    assert forall|k: int| 0 <= k <= n implies spans_text(#[trigger] pieces.take(k)) == sp.text.subrange(0, pts[k] - cp) by {
        lemma_pieces_prefix(sp, cp, rel, k);
    }
    assert(pieces.take(n) =~= pieces);
    assert(pts[n] == end);
    assert(sp.text.subrange(0, end - cp) =~= sp.text);
}

proof fn lemma_pieces_prefix(sp: SpanView, cp: int, rel: Seq<(usize, usize, bool)>, k: int)
    requires
        0 <= k < points_upto(rel, cp, cp + sp.text.len(), cp + sp.text.len()).len(),
    ensures
        spans_text(highlight_span(sp, cp, rel).take(k)) == sp.text.subrange(
            0,
            points_upto(rel, cp, cp + sp.text.len(), cp + sp.text.len())[k] - cp,
        ),
    decreases k,
{
    let end = cp + sp.text.len();
    let pts = points_upto(rel, cp, end, end);
    let pieces = highlight_span(sp, cp, rel);
    lemma_points(rel, cp, end, end);
    if k == 0 {
        assert(pieces.take(0) =~= Seq::<SpanView>::empty());
        assert(sp.text.subrange(0, 0) =~= Seq::<char>::empty());
    } else {
        lemma_pieces_prefix(sp, cp, rel, k - 1);
        assert(pieces.take(k).drop_last() =~= pieces.take(k - 1));
        assert(pieces.take(k).last() == pieces[k - 1]);
        assert(pts[k - 1] < pts[k]);
        assert(pieces[k - 1].text == sp.text.subrange(pts[k - 1] - cp, pts[k] - cp));
        assert(sp.text.subrange(0, pts[k - 1] - cp) + sp.text.subrange(pts[k - 1] - cp, pts[k] - cp)
            =~= sp.text.subrange(0, pts[k] - cp));
    }
}

proof fn lemma_spans_text_single(x: SpanView)
    ensures
        spans_text(seq![x]) == x.text,
{
    let s = seq![x];
    assert(s.drop_last() =~= Seq::<SpanView>::empty());
    assert(spans_text(s.drop_last()) =~= Seq::<char>::empty());
    assert(spans_text(s) == spans_text(s.drop_last()) + s.last().text);
    assert(spans_text(s) =~= x.text);
}

proof fn lemma_flat_text_single(x: SegmentView)
    ensures
        flat_text(seq![x]) == match x {
            SegmentView::StyledText(spans) => spans_text(spans),
            SegmentView::Image(_) => seq![],
        },
{
    let s = seq![x];
    assert(s.drop_last() =~= Seq::<SegmentView>::empty());
    assert(flat_text(s.drop_last()) =~= Seq::<char>::empty());
    let piece = match x {
        SegmentView::StyledText(spans) => spans_text(spans),
        SegmentView::Image(_) => seq![],
    };
    assert(flat_text(s) == flat_text(s.drop_last()) + piece);
    assert(flat_text(s) =~= piece);
}

proof fn lemma_spans_pieces(spans: Seq<SpanView>, i: int, cp: int, rel: Seq<(usize, usize, bool)>)
    requires
        0 <= i <= spans.len(),
    ensures
        spans_text(highlight_spans(spans, i, cp, rel)) == spans_text(spans.skip(i)),
    decreases spans.len() - i,
{
    if i >= spans.len() {
        assert(spans.skip(i) =~= Seq::<SpanView>::empty());
    } else {
        lemma_spans_pieces(spans, i + 1, cp + spans[i].text.len(), rel);
        lemma_span_pieces(spans[i], cp, rel);
        lemma_spans_text_append(
            highlight_span(spans[i], cp, rel),
            highlight_spans(spans, i + 1, cp + spans[i].text.len(), rel),
        );
        assert(spans.skip(i) =~= seq![spans[i]] + spans.skip(i + 1));
        lemma_spans_text_append(seq![spans[i]], spans.skip(i + 1));
        lemma_spans_text_single(spans[i]);
    }
}

proof fn lemma_segments_pieces(segs: Seq<SegmentView>, i: int, cp: int, rel: Seq<(usize, usize, bool)>)
    requires
        0 <= i <= segs.len(),
    ensures
        flat_text(highlight_segments(segs, i, cp, rel)) == flat_text(segs.skip(i)),
    decreases segs.len() - i,
{
    if i >= segs.len() {
        assert(segs.skip(i) =~= Seq::<SegmentView>::empty());
    } else {
        assert(segs.skip(i) =~= seq![segs[i]] + segs.skip(i + 1));
        lemma_flat_text_append(seq![segs[i]], segs.skip(i + 1));
        lemma_flat_text_single(segs[i]);
        match segs[i] {
            SegmentView::Image(h) => {
                lemma_segments_pieces(segs, i + 1, cp, rel);
                let rest = highlight_segments(segs, i + 1, cp, rel);
                lemma_flat_text_append(seq![SegmentView::Image(h)], rest);
                lemma_flat_text_single(SegmentView::Image(h));
            },
            SegmentView::StyledText(spans) => {
                let pieces = highlight_spans(spans, 0, cp, rel);
                lemma_spans_pieces(spans, 0, cp, rel);
                assert(spans.skip(0) =~= spans);
                lemma_segments_pieces(segs, i + 1, cp + spans_text(spans).len(), rel);
                let rest = highlight_segments(segs, i + 1, cp + spans_text(spans).len(), rel);
                if pieces.len() > 0 {
                    lemma_flat_text_append(seq![SegmentView::StyledText(pieces)], rest);
                    lemma_flat_text_single(SegmentView::StyledText(pieces));
                } else {
                    assert(pieces =~= Seq::<SpanView>::empty());
                    assert(spans_text(pieces) =~= Seq::<char>::empty());
                    assert(Seq::<SegmentView>::empty() + rest =~= rest);
                }
            },
        }
    }
}

/// Highlighting matches only colors the text: the highlighted segments hold
/// the same text as the chapter's segments.
pub proof fn law_highlighting_keeps_text(segs: Seq<SegmentView>, rel: Seq<(usize, usize, bool)>)
    ensures
        flat_text(highlight_segments(segs, 0, 0, rel)) == flat_text(segs),
{
    lemma_segments_pieces(segs, 0, 0, rel);
    assert(segs.skip(0) =~= segs);
}


// ─── Tables of contents ──────────────────────────────────────────────────

/// An entry and all entries below it satisfy `p`.
pub open spec fn tree_ok(n: TocNode, p: spec_fn(TocNode) -> bool) -> bool
    decreases n, 1int,
{
    p(n) && trees_ok(n.children, p)
}

/// Every entry of a list, and all entries below them, satisfy `p`.
pub open spec fn trees_ok(ns: Seq<TocNode>, p: spec_fn(TocNode) -> bool) -> bool
    decreases ns, 0int,
{
    ns.len() == 0 || (trees_ok(ns.drop_last(), p) && tree_ok(ns.last(), p))
}

/// The open entries' finished children satisfy `p`.
pub open spec fn stack_ok(stack: Seq<TocNode>, p: spec_fn(TocNode) -> bool) -> bool {
    forall|i: int| 0 <= i < stack.len() ==> trees_ok(#[trigger] stack[i].children, p)
}

proof fn lemma_trees_push(ns: Seq<TocNode>, x: TocNode, p: spec_fn(TocNode) -> bool)
    ensures
        trees_ok(ns.push(x), p) == (trees_ok(ns, p) && tree_ok(x, p)),
{
    assert(ns.push(x).drop_last() =~= ns);
}

proof fn lemma_stack_push(stack: Seq<TocNode>, x: TocNode, p: spec_fn(TocNode) -> bool)
    requires
        stack_ok(stack, p),
        trees_ok(x.children, p),
    ensures
        stack_ok(stack.push(x), p),
{
    assert forall|i: int| 0 <= i < stack.push(x).len() implies trees_ok(#[trigger] stack.push(x)[i].children, p) by {
        if i < stack.len() {
            assert(stack.push(x)[i] == stack[i]);
        }
    }
}

proof fn lemma_stack_pop(stack: Seq<TocNode>, p: spec_fn(TocNode) -> bool)
    requires
        stack_ok(stack, p),
        stack.len() > 0,
    ensures
        stack_ok(stack.drop_last(), p),
        trees_ok(stack.last().children, p),
{
    assert forall|i: int| 0 <= i < stack.drop_last().len() implies trees_ok(#[trigger] stack.drop_last()[i].children, p) by {
        assert(stack.drop_last()[i] == stack[i]);
    }
}

/// Replacing the innermost open entry by one with the same children keeps
/// the open entries' children as they were.
proof fn lemma_stack_top(stack: Seq<TocNode>, n: TocNode, p: spec_fn(TocNode) -> bool)
    requires
        stack_ok(stack, p),
        stack.len() > 0,
        n.children == stack.last().children,
    ensures
        stack_ok(with_top(stack, n), p),
{
    lemma_stack_pop(stack, p);
    lemma_stack_push(stack.drop_last(), n, p);
}

proof fn lemma_attach_ok(stack: Seq<TocNode>, items: Seq<TocNode>, n: TocNode, p: spec_fn(TocNode) -> bool)
    requires
        stack_ok(stack, p),
        trees_ok(items, p),
        tree_ok(n, p),
    ensures
        stack_ok(attach_node(stack, items, n).0, p),
        trees_ok(attach_node(stack, items, n).1, p),
{
    if stack.len() == 0 {
        lemma_trees_push(items, n, p);
    } else {
        let top = stack.last();
        lemma_stack_pop(stack, p);
        lemma_trees_push(top.children, n, p);
        lemma_stack_push(stack.drop_last(), TocNode { children: top.children.push(n), ..top }, p);
    }
}

proof fn lemma_attach_all_ok(stack: Seq<TocNode>, items: Seq<TocNode>, kids: Seq<TocNode>, p: spec_fn(TocNode) -> bool)
    requires
        stack_ok(stack, p),
        trees_ok(items, p),
        trees_ok(kids, p),
    ensures
        stack_ok(attach_all(stack, items, kids).0, p),
        trees_ok(attach_all(stack, items, kids).1, p),
    decreases kids.len(),
{
    if kids.len() > 0 {
        lemma_attach_all_ok(stack, items, kids.drop_last(), p);
        let (s, i) = attach_all(stack, items, kids.drop_last());
        lemma_attach_ok(s, i, kids.last(), p);
    }
}

/// An NCX entry worth keeping: it has a label or children.
pub open spec fn ncx_entry_ok(n: TocNode) -> bool {
    n.label.len() > 0 || n.children.len() > 0
}

proof fn lemma_ncx_step(st: NcxState, e: EventView)
    requires
        stack_ok(st.stack, |n: TocNode| ncx_entry_ok(n)),
        trees_ok(st.items, |n: TocNode| ncx_entry_ok(n)),
    ensures
        stack_ok(ncx_step(st, e).stack, |n: TocNode| ncx_entry_ok(n)),
        trees_ok(ncx_step(st, e).items, |n: TocNode| ncx_entry_ok(n)),
{
    let p = |n: TocNode| ncx_entry_ok(n);
    assert(trees_ok(empty_node().children, p));
    if st.stack.len() > 0 {
        let top = st.stack.last();
        lemma_stack_top(st.stack, TocNode { href: top.href, ..top }, p);
        assert forall|v: Seq<char>| stack_ok(with_top(st.stack, TocNode { href: v, ..top }), p) by {
            lemma_stack_top(st.stack, TocNode { href: v, ..top }, p);
        }
        assert forall|v: Seq<char>| stack_ok(with_top(st.stack, TocNode { label: v, ..top }), p) by {
            lemma_stack_top(st.stack, TocNode { label: v, ..top }, p);
        }
        lemma_stack_pop(st.stack, p);
        if top.label.len() > 0 || top.children.len() > 0 {
            lemma_attach_ok(st.stack.drop_last(), st.items, top, p);
        }
    }
    lemma_stack_push(st.stack, empty_node(), p);
}

proof fn lemma_ncx_run(evs: Seq<EventView>, i: int, st: NcxState)
    requires
        stack_ok(st.stack, |n: TocNode| ncx_entry_ok(n)),
        trees_ok(st.items, |n: TocNode| ncx_entry_ok(n)),
    ensures
        trees_ok(ncx_run(evs, i, st).items, |n: TocNode| ncx_entry_ok(n)),
    decreases evs.len() - i,
{
    if !(i < 0 || i >= evs.len() || is_terminal(evs[i])) {
        lemma_ncx_step(st, evs[i]);
        lemma_ncx_run(evs, i + 1, ncx_step(st, evs[i]));
    }
}

/// Every entry of a table of contents read from an NCX file, at any depth,
/// has a label or entries below it.
pub proof fn law_ncx_entries_are_not_empty(evs: Seq<EventView>)
    ensures
        trees_ok(spec_parse_ncx(evs), |n: TocNode| ncx_entry_ok(n)),
{
    let st = NcxState { items: seq![], stack: seq![], in_label: false, in_text: false };
    lemma_ncx_run(evs, 0, st);
}

/// A navigation entry worth keeping: it has a label and a target.
pub open spec fn nav_entry_ok(n: TocNode) -> bool {
    n.label.len() > 0 && n.href.len() > 0
}

proof fn lemma_nav_step(st: NavState, e: EventView)
    requires
        stack_ok(st.stack, |n: TocNode| nav_entry_ok(n)),
        trees_ok(st.items, |n: TocNode| nav_entry_ok(n)),
    ensures
        stack_ok(nav_step(st, e).stack, |n: TocNode| nav_entry_ok(n)),
        trees_ok(nav_step(st, e).items, |n: TocNode| nav_entry_ok(n)),
{
    let p = |n: TocNode| nav_entry_ok(n);
    assert(trees_ok(empty_node().children, p));
    if st.stack.len() > 0 {
        let top = st.stack.last();
        assert forall|v: Seq<char>| stack_ok(with_top(st.stack, TocNode { href: v, ..top }), p) by {
            lemma_stack_top(st.stack, TocNode { href: v, ..top }, p);
        }
        assert forall|v: Seq<char>| stack_ok(with_top(st.stack, TocNode { label: v, ..top }), p) by {
            lemma_stack_top(st.stack, TocNode { label: v, ..top }, p);
        }
        lemma_stack_pop(st.stack, p);
        let item = TocNode { label: crate::text::trim(top.label), ..top };
        if item.label.len() > 0 && item.href.len() > 0 {
            lemma_attach_ok(st.stack.drop_last(), st.items, item, p);
        } else {
            lemma_attach_all_ok(st.stack.drop_last(), st.items, item.children, p);
        }
    }
    lemma_stack_push(st.stack, empty_node(), p);
}

proof fn lemma_nav_run(evs: Seq<EventView>, i: int, st: NavState)
    requires
        stack_ok(st.stack, |n: TocNode| nav_entry_ok(n)),
        trees_ok(st.items, |n: TocNode| nav_entry_ok(n)),
    ensures
        trees_ok(nav_run(evs, i, st).items, |n: TocNode| nav_entry_ok(n)),
    decreases evs.len() - i,
{
    if !(i < 0 || i >= evs.len() || is_terminal(evs[i])) {
        lemma_nav_step(st, evs[i]);
        lemma_nav_run(evs, i + 1, nav_step(st, evs[i]));
    }
}

/// Every entry of a table of contents read from a navigation document, at
/// any depth, has a label and a target: a list item without both is dropped
/// and its entries move up to its parent.
pub proof fn law_nav_entries_have_label_and_target(evs: Seq<EventView>)
    ensures
        trees_ok(spec_parse_nav(evs), |n: TocNode| nav_entry_ok(n)),
{
    let st = NavState { items: seq![], stack: seq![], in_toc_nav: false, in_link: false };
    lemma_nav_run(evs, 0, st);
}


// ─── Markdown ────────────────────────────────────────────────────────────

proof fn lemma_strip_plain(s: Seq<char>, i: int)
    requires
        0 <= i <= s.len(),
        !s.contains('<'),
    ensures
        strip_tags_from(s, i, TagScan::Text) == s.skip(i),
    decreases s.len() - i,
{
    if i < s.len() {
        lemma_strip_plain(s, i + 1);
        assert(s[i] != '<') by {
            if s[i] == '<' {
                assert(s.contains('<'));
            }
        }
        assert(s.skip(i) =~= seq![s[i]] + s.skip(i + 1));
    } else {
        assert(s.skip(i) =~= Seq::<char>::empty());
    }
}

/// Markdown without any `<` comes out of the raw-HTML removal unchanged.
pub proof fn law_plain_markdown_survives_stripping(s: Seq<char>)
    requires
        !s.contains('<'),
    ensures
        spec_strip_raw_html(s) == s,
{
    lemma_strip_plain(s, 0);
    assert(s.skip(0) =~= s);
}

proof fn lemma_after_last_newline(s: Seq<char>, p: int)
    requires
        0 <= p <= s.len(),
    ensures
        0 <= after_last_newline(s, p) <= p,
        forall|k: int| after_last_newline(s, p) <= k < p ==> #[trigger] s[k] != '\n',
    decreases p,
{
    if p > 0 && s[p - 1] != '\n' {
        lemma_after_last_newline(s, p - 1);
    }
}

proof fn lemma_no_newline_before(s: Seq<char>, p: int)
    requires
        0 <= p <= s.len(),
        forall|k: int| 0 <= k < p ==> #[trigger] s[k] != '\n',
    ensures
        after_last_newline(s, p) == 0,
    decreases p,
{
    if p > 0 {
        lemma_no_newline_before(s, p - 1);
    }
}

proof fn lemma_skip_ws_to(s: Seq<char>, i: int, m: int)
    requires
        0 <= i <= m <= s.len(),
        forall|k: int| i <= k < m ==> is_ws(#[trigger] s[k]),
        m == s.len() || !is_ws(s[m]),
    ensures
        skip_ws(s, i) == m,
    decreases m - i,
{
    if i < m {
        lemma_skip_ws_to(s, i + 1, m);
    }
}

/// Removing the blank lines before a chapter's first text leaves text that
/// starts on a line holding something other than white space, and removing
/// them once more changes nothing.
pub proof fn law_trimmed_markdown_starts_with_text(s: Seq<char>)
    ensures
        ({
            let t = spec_trim_leading_blank_lines(s);
            &&& forall|k: int| 0 <= k < t.len() && t[k] == '\n' ==> !(forall|m: int| 0 <= m < k ==> is_ws(#[trigger] t[m]))
            &&& spec_trim_leading_blank_lines(t) == t
        }),
{
    let n = skip_ws(s, 0);
    lemma_skip_ws(s, 0);
    let a = after_last_newline(s, n);
    lemma_after_last_newline(s, n);
    let t = s.skip(a);
    assert(spec_trim_leading_blank_lines(s) == t);
    assert forall|k: int| 0 <= k < t.len() && t[k] == '\n' implies !(forall|m: int| 0 <= m < k ==> is_ws(#[trigger] t[m])) by {
        if forall|m: int| 0 <= m < k ==> is_ws(#[trigger] t[m]) {
            if a + k < n {
                assert(s[a + k] != '\n');
            } else {
                if a + k > n {
                    assert(is_ws(t[n - a]));
                }
                assert(t[k] == s[n]);
                assert(is_ws(s[n]));
            }
        }
    }
    assert forall|k: int| 0 <= k < n - a implies is_ws(#[trigger] t[k]) by {
        assert(t[k] == s[a + k]);
    }
    lemma_skip_ws_to(t, 0, n - a);
    assert forall|k: int| 0 <= k < n - a implies #[trigger] t[k] != '\n' by {
        assert(t[k] == s[a + k]);
    }
    lemma_no_newline_before(t, n - a);
    assert(t.skip(0) =~= t);
}

proof fn lemma_hooks(s: Seq<char>, base: Seq<char>, hrefs: Seq<Seq<char>>, current: usize, i: int)
    ensures
        rewrite_from(s, base, hrefs, current, i) matches Some((o, t)) ==> forall|k: int|
            0 <= k < t.len() ==> #[trigger] t[k].1 < hrefs.len() || t[k].1 == current,
    decreases s.len() - i,
{
    if 0 <= i < s.len() {
        let image = s[i] == '!' && i + 1 < s.len() && s[i + 1] == '[';
        let link = !image && s[i] == '[';
        let j = crate::markdown::label_end(s, i + 1, false);
        if (image || link) && i + 1 < s.len() && j < s.len() {
            if !(j + 2 >= s.len() || j < i + 1) {
                let k = crate::markdown::target_end(s, j + 2, 1);
                if !(k <= j + 2 || k > s.len()) {
                    lemma_hooks(s, base, hrefs, current, k);
                    let target = crate::text::trim(s.subrange(j + 2, k - 1));
                    match rewrite_from(s, base, hrefs, current, k) {
                        Some((o, t)) => {
                            let h = crate::markdown::hook_of(target, image, base, hrefs, current);
                            assert forall|m: int| 0 <= m < (h + t).len() implies #[trigger] (h + t)[m].1
                                < hrefs.len() || (h + t)[m].1 == current by {
                                if m >= h.len() {
                                    assert((h + t)[m] == t[m - h.len()]);
                                } else {
                                    let resolved = spec_resolve_path(
                                        base,
                                        target.take(crate::text::find_char(target, '#', 0)),
                                    );
                                    lemma_index_of_href(hrefs, resolved, 0);
                                    assert((h + t)[m] == h[m]);
                                }
                            }
                        },
                        None => {},
                    }
                }
            }
        } else {
            lemma_hooks(s, base, hrefs, current, i + 1);
        }
    }
}

proof fn lemma_index_of_href(hrefs: Seq<Seq<char>>, x: Seq<char>, m: int)
    requires
        0 <= m <= hrefs.len(),
    ensures
        m <= crate::markdown::index_of_href(hrefs, x, m),
    decreases hrefs.len() - m,
{
    if m < hrefs.len() && hrefs[m] != x {
        lemma_index_of_href(hrefs, x, m + 1);
    }
}

/// Every link hook leads to a chapter of the spine or to the current
/// chapter.
pub proof fn law_link_hooks_lead_to_chapters(s: Seq<char>, base: Seq<char>, hrefs: Seq<Seq<char>>, current: usize)
    requires
        crate::markdown::scan_completes(s, 0),
    ensures
        forall|k: int|
            0 <= k < spec_rewrite_links_and_images(s, base, hrefs, current).1.len() ==> #[trigger] spec_rewrite_links_and_images(
                s,
                base,
                hrefs,
                current,
            ).1[k].1 < hrefs.len() || spec_rewrite_links_and_images(s, base, hrefs, current).1[k].1 == current,
{
    crate::markdown::lemma_scan_completes(s, base, hrefs, current, 0);
    lemma_hooks(s, base, hrefs, current, 0);
}

} // verus!

verus! {

// ─── Laws on what each operation is for ──────────────────────────────────

/// A link target that leads out of the book: a web address, a mail address
/// or inline data.
pub open spec fn leads_outside(t: Seq<char>) -> bool {
    ||| starts_with(t, seq!['h', 't', 't', 'p'])
    ||| starts_with(t, seq!['m', 'a', 'i', 'l', 't', 'o', ':'])
    ||| starts_with(t, seq!['d', 'a', 't', 'a', ':'])
}

proof fn lemma_hooks_stay_inside(s: Seq<char>, base: Seq<char>, hrefs: Seq<Seq<char>>, current: usize, i: int)
    ensures
        rewrite_from(s, base, hrefs, current, i) matches Some((o, t)) ==> forall|k: int|
            0 <= k < t.len() ==> !leads_outside(#[trigger] t[k].0),
    decreases s.len() - i,
{
    if 0 <= i < s.len() {
        let image = s[i] == '!' && i + 1 < s.len() && s[i + 1] == '[';
        let link = !image && s[i] == '[';
        let j = crate::markdown::label_end(s, i + 1, false);
        if (image || link) && i + 1 < s.len() && j < s.len() {
            if !(j + 2 >= s.len() || j < i + 1) {
                let k = crate::markdown::target_end(s, j + 2, 1);
                if !(k <= j + 2 || k > s.len()) {
                    lemma_hooks_stay_inside(s, base, hrefs, current, k);
                    let target = crate::text::trim(s.subrange(j + 2, k - 1));
                    match rewrite_from(s, base, hrefs, current, k) {
                        Some((o, t)) => {
                            let h = crate::markdown::hook_of(target, image, base, hrefs, current);
                            assert forall|m: int| 0 <= m < (h + t).len() implies !leads_outside(
                                #[trigger] (h + t)[m].0,
                            ) by {
                                if m >= h.len() {
                                    assert((h + t)[m] == t[m - h.len()]);
                                } else {
                                    assert((h + t)[m] == h[m]);
                                }
                            }
                        },
                        None => {},
                    }
                }
            }
        } else {
            lemma_hooks_stay_inside(s, base, hrefs, current, i + 1);
        }
    }
}

/// Link hooks are made for links inside the book only: no hook's target is
/// a web address (`http…`), a mail address (`mailto:`) or inline data
/// (`data:`); those links keep their own targets.
pub proof fn law_outside_links_get_no_hook(s: Seq<char>, base: Seq<char>, hrefs: Seq<Seq<char>>, current: usize)
    requires
        crate::markdown::scan_completes(s, 0),
    ensures
        forall|k: int|
            0 <= k < spec_rewrite_links_and_images(s, base, hrefs, current).1.len() ==> !leads_outside(
                #[trigger] spec_rewrite_links_and_images(s, base, hrefs, current).1[k].0,
            ),
{
    crate::markdown::lemma_scan_completes(s, base, hrefs, current, 0);
    lemma_hooks_stay_inside(s, base, hrefs, current, 0);
}

// ─── Package metadata ────────────────────────────────────────────────────

/// The metadata fields read from an OPF file, by name.
pub open spec fn is_meta_name(n: Seq<char>) -> bool {
    n == "title"@ || n == "creator"@ || n == "language"@ || n == "publisher"@ || n == "date"@ || n
        == "description"@
}

/// The value of the field `name` (an empty title counts as none).
pub open spec fn meta_field(m: crate::types::MetaView, name: Seq<char>) -> Option<Seq<char>> {
    if name == "title"@ {
        if m.title.len() > 0 {
            Some(m.title)
        } else {
            None
        }
    } else if name == "creator"@ {
        m.creator
    } else if name == "language"@ {
        m.language
    } else if name == "publisher"@ {
        m.publisher
    } else if name == "date"@ {
        m.date
    } else {
        m.description
    }
}

/// The trimmed text of the first child named `name` of a `metadata` element
/// whose text is not blank, among the events from `i` on (up to the end or
/// the first error).
pub open spec fn first_meta_value(evs: Seq<EventView>, i: int, name: Seq<char>) -> Option<Seq<char>>
    decreases evs.len() - i,
{
    if i < 0 || i >= evs.len() || is_terminal(evs[i]) {
        None
    } else {
        let st = crate::xml::stack_at(evs, i);
        match evs[i] {
            EventView::Text(Some(txt)) => {
                if st.len() >= 2 && st[st.len() - 2] == "metadata"@ && st.last() == name
                    && crate::text::trim(txt).len() > 0 {
                    Some(crate::text::trim(txt))
                } else {
                    first_meta_value(evs, i + 1, name)
                }
            },
            _ => first_meta_value(evs, i + 1, name),
        }
    }
}

proof fn lemma_meta_names()
    ensures
        "title"@.len() == 5,
        "creator"@.len() == 7,
        "language"@.len() == 8,
        "publisher"@.len() == 9,
        "date"@.len() == 4,
        "description"@.len() == 11,
{
    reveal_strlit("title");
    reveal_strlit("creator");
    reveal_strlit("language");
    reveal_strlit("publisher");
    reveal_strlit("date");
    reveal_strlit("description");
}

proof fn lemma_capture_field(m: crate::types::MetaView, n: Seq<char>, text: Seq<char>, name: Seq<char>)
    requires
        is_meta_name(name),
    ensures
        ({
            let m2 = crate::opf::capture(m, n, text);
            &&& meta_field(m, name) is Some ==> meta_field(m2, name) == meta_field(m, name)
            &&& (n != name || crate::text::trim(text).len() == 0) ==> meta_field(m2, name) == meta_field(m, name)
            &&& (n == name && crate::text::trim(text).len() > 0 && meta_field(m, name) is None) ==> meta_field(
                m2,
                name,
            ) == Some(crate::text::trim(text))
        }),
{
    lemma_meta_names();
}

proof fn lemma_meta_run(evs: Seq<EventView>, i: int, m: crate::types::MetaView, name: Seq<char>)
    requires
        is_meta_name(name),
    ensures
        meta_field(crate::opf::meta_run(evs, i, m), name) == if meta_field(m, name) is Some {
            meta_field(m, name)
        } else {
            first_meta_value(evs, i, name)
        },
    decreases evs.len() - i,
{
    if !(i < 0 || i >= evs.len() || is_terminal(evs[i])) {
        let m2 = match evs[i] {
            EventView::Text(Some(txt)) => {
                let st = crate::xml::stack_at(evs, i);
                if st.len() >= 2 && st[st.len() - 2] == "metadata"@ {
                    lemma_capture_field(m, st.last(), txt, name);
                    crate::opf::capture(m, st.last(), txt)
                } else {
                    m
                }
            },
            _ => m,
        };
        assert(crate::opf::meta_run(evs, i, m) == crate::opf::meta_run(evs, i + 1, m2));
        lemma_meta_run(evs, i + 1, m2, name);
    }
}

/// Each metadata field (title, creator, language, publisher, date,
/// description) of an OPF file is the trimmed text of the first child of
/// `metadata` with that local name and non-blank text, and is unset when
/// there is none.
pub proof fn law_metadata_fields_are_first_values(evs: Seq<EventView>, name: Seq<char>)
    requires
        is_meta_name(name),
        !crate::xml::ends_in_error(evs),
    ensures
        crate::opf::spec_parse_metadata(evs) matches Some(m) && meta_field(m, name) == first_meta_value(
            evs,
            0,
            name,
        ),
{
    lemma_meta_names();
    lemma_meta_run(evs, 0, crate::opf::empty_meta(), name);
}

// ─── Alert tokens in quotes ──────────────────────────────────────────────

/// The GitHub alert kinds: NOTE, TIP, IMPORTANT, WARNING, CAUTION.
pub open spec fn alert_kinds() -> Seq<Seq<char>> {
    seq![
        seq!['N', 'O', 'T', 'E'],
        seq!['T', 'I', 'P'],
        seq!['I', 'M', 'P', 'O', 'R', 'T', 'A', 'N', 'T'],
        seq!['W', 'A', 'R', 'N', 'I', 'N', 'G'],
        seq!['C', 'A', 'U', 'T', 'I', 'O', 'N'],
    ]
}

proof fn lemma_one_line(line: Seq<char>, i: int)
    requires
        0 <= i <= line.len(),
        line.len() > 0,
        line.last() != '\r',
        !line.contains('\n'),
    ensures
        crate::markdown::lines_from(line.push('\n'), i, line.take(i), seq![]) == seq![line],
    decreases line.len() - i,
{
    let s = line.push('\n');
    if i < line.len() {
        assert(s[i] == line[i]);
        assert(line.take(i).push(line[i]) =~= line.take(i + 1));
        lemma_one_line(line, i + 1);
    } else {
        assert(line.take(i) =~= line);
        assert(s[i] == '\n');
        let e = Seq::<Seq<char>>::empty();
        assert(crate::markdown::lines_from(s, i + 1, seq![], e.push(line)) == e.push(line));
        assert(e.push(line) =~= seq![line]);
    }
}

proof fn lemma_find_char_at(s: Seq<char>, c: char, i: int, e: int)
    requires
        0 <= i <= e < s.len(),
        s[e] == c,
        forall|k: int| i <= k < e ==> s[k] != c,
    ensures
        crate::text::find_char(s, c, i) == e,
    decreases e - i,
{
    if i < e {
        lemma_find_char_at(s, c, i + 1, e);
    }
}

/// A quoted line that opens with an alert token `[!NOTE]`, `[!TIP]`,
/// `[!IMPORTANT]`, `[!WARNING]` or `[!CAUTION]`, in any letter case, heals to
/// the quote of the rest of the line: the token is dropped, with the white
/// space after it.
pub proof fn law_alert_tokens_are_dropped(k: int, kind: Seq<char>, rest: Seq<char>)
    requires
        0 <= k < 5,
        crate::text::ascii_upper(kind) == alert_kinds()[k],
        !rest.contains('\n'),
        !rest.contains('\r'),
    ensures
        ({
            let line = seq!['>', ' ', '[', '!'] + kind + seq![']'] + rest;
            crate::markdown::spec_heal_markdown(line.push('\n')) == seq!['>', ' '] + crate::text::trim_start(rest)
                + seq!['\n']
        }),
{
    let up = alert_kinds()[k];
    assert(forall|j: int| 0 <= j < up.len() ==> 'A' <= #[trigger] up[j] <= 'Z');
    assert(kind.len() == up.len());
    assert forall|j: int| 0 <= j < kind.len() implies kind[j] != '\n' && kind[j] != ']' && kind[j] != '\r' by {
        assert(crate::text::ascii_upper(kind)[j] == crate::text::upper_char(kind[j]));
        assert(up[j] == crate::text::upper_char(kind[j]));
    }
    let line = seq!['>', ' ', '[', '!'] + kind + seq![']'] + rest;
    assert forall|j: int| 0 <= j < line.len() implies line[j] != '\n' by {
        if j >= 5 + kind.len() {
            assert(line[j] == rest[j - 5 - kind.len()]);
        } else if 4 <= j < 4 + kind.len() {
            assert(line[j] == kind[j - 4]);
        }
    }
    assert(line.last() != '\r') by {
        if rest.len() > 0 {
            assert(line.last() == rest[rest.len() - 1]);
        } else {
            assert(line.last() == ']');
        }
    }
    lemma_one_line(line, 0);
    assert(line.take(0) =~= Seq::<char>::empty());
    let ls = crate::markdown::lines(line.push('\n'));
    assert(ls == seq![line]);
    assert(ls.drop_last() =~= Seq::<Seq<char>>::empty());
    // The alert token.
    assert(crate::text::find_char(line, '>', 0) == 0);
    let after = line.skip(1);
    assert(crate::text::skip_ws(after, 0) == 1) by {
        assert(after[0] == ' ');
        assert(after[1] == '[');
        assert(crate::text::skip_ws(after, 1) == 1);
    }
    let r0 = crate::text::trim_start(after);
    assert(r0 =~= seq!['[', '!'] + kind + seq![']'] + rest);
    assert(r0.subrange(0, 2) =~= seq!['[', '!']);
    let e: int = 2 + kind.len() as int;
    assert(r0[e] == ']');
    assert forall|j: int| 0 <= j < e implies r0[j] != ']' by {
        if j >= 2 {
            assert(r0[j] == kind[j - 2]);
        }
    }
    lemma_find_char_at(r0, ']', 0, e);
    assert(r0.subrange(2, e) =~= kind);
    assert(crate::markdown::is_alert_ident(up));
    assert(r0.skip(e + 1) =~= rest);
    let healed = seq!['>', ' '] + crate::text::trim_start(rest);
    assert(crate::markdown::spec_strip_alert_token(line) == Some(healed));
    assert(crate::markdown::heal_line(line) == healed);
    assert(ls.last() == line);
    assert(crate::markdown::heal_lines(ls.drop_last()) == Seq::<char>::empty());
    assert(crate::markdown::heal_lines(ls) == crate::markdown::heal_lines(ls.drop_last()) + crate::markdown::heal_line(
        ls.last(),
    ) + seq!['\n']);
    assert(Seq::<char>::empty() + healed + seq!['\n'] =~= healed + seq!['\n']);
}

// ─── Entries of a navigation document ────────────────────────────────────

/// The number of entries of a tree: the entry and all entries below it.
pub open spec fn tree_count(n: TocNode) -> nat
    decreases n, 1int,
{
    1 + trees_count(n.children)
}

/// The number of entries of a list of trees, at any depth.
pub open spec fn trees_count(ns: Seq<TocNode>) -> nat
    decreases ns, 0int,
{
    if ns.len() == 0 {
        0
    } else {
        trees_count(ns.drop_last()) + tree_count(ns.last())
    }
}

/// The number of finished entries held below the open list items.
pub open spec fn open_count(stack: Seq<TocNode>) -> nat
    decreases stack.len(),
{
    if stack.len() == 0 {
        0
    } else {
        open_count(stack.drop_last()) + trees_count(stack.last().children)
    }
}

/// The event closes a list item of the table of contents that has a
/// (non-blank) label and a target.
pub open spec fn closes_linked_item(st: NavState, e: EventView) -> bool {
    &&& e matches EventView::End(name, _) && name == "li"@
    &&& st.in_toc_nav
    &&& st.stack.len() > 0
    &&& crate::text::trim(st.stack.last().label).len() > 0
    &&& st.stack.last().href.len() > 0
}

/// The number of linked list items closed by the events from `i` on,
/// reading from state `st`.
pub open spec fn linked_items_closed(evs: Seq<EventView>, i: int, st: NavState) -> nat
    decreases evs.len() - i,
{
    if i < 0 || i >= evs.len() || is_terminal(evs[i]) {
        0
    } else {
        (if closes_linked_item(st, evs[i]) {
            1nat
        } else {
            0nat
        }) + linked_items_closed(evs, i + 1, nav_step(st, evs[i]))
    }
}

proof fn lemma_trees_count_push(ns: Seq<TocNode>, x: TocNode)
    ensures
        trees_count(ns.push(x)) == trees_count(ns) + tree_count(x),
{
    assert(ns.push(x).drop_last() =~= ns);
}

proof fn lemma_open_count_top(stack: Seq<TocNode>, n: TocNode)
    requires
        stack.len() > 0,
    ensures
        open_count(with_top(stack, n)) + trees_count(stack.last().children) == open_count(stack) + trees_count(
            n.children,
        ),
{
    let s2 = with_top(stack, n);
    assert(s2.drop_last() =~= stack.drop_last());
}

proof fn lemma_open_count_push(stack: Seq<TocNode>, n: TocNode)
    ensures
        open_count(stack.push(n)) == open_count(stack) + trees_count(n.children),
{
    assert(stack.push(n).drop_last() =~= stack);
}

proof fn lemma_attach_count(stack: Seq<TocNode>, items: Seq<TocNode>, n: TocNode)
    ensures
        open_count(attach_node(stack, items, n).0) + trees_count(attach_node(stack, items, n).1) == open_count(stack)
            + trees_count(items) + tree_count(n),
{
    if stack.len() == 0 {
        lemma_trees_count_push(items, n);
    } else {
        let p = stack.last();
        let p2 = TocNode { children: p.children.push(n), ..p };
        lemma_trees_count_push(p.children, n);
        lemma_open_count_top(stack, p2);
    }
}

proof fn lemma_attach_all_count(stack: Seq<TocNode>, items: Seq<TocNode>, kids: Seq<TocNode>)
    ensures
        open_count(attach_all(stack, items, kids).0) + trees_count(attach_all(stack, items, kids).1) == open_count(
            stack,
        ) + trees_count(items) + trees_count(kids),
    decreases kids.len(),
{
    if kids.len() > 0 {
        lemma_attach_all_count(stack, items, kids.drop_last());
        let (s, i) = attach_all(stack, items, kids.drop_last());
        lemma_attach_count(s, i, kids.last());
    }
}

proof fn lemma_nav_step_count(st: NavState, e: EventView)
    ensures
        open_count(nav_step(st, e).stack) + trees_count(nav_step(st, e).items) == open_count(st.stack) + trees_count(
            st.items,
        ) + if closes_linked_item(st, e) {
            1nat
        } else {
            0nat
        },
{
    reveal_strlit("li");
    reveal_strlit("a");
    reveal_strlit("nav");
    lemma_open_count_push(st.stack, empty_node());
    assert(trees_count(empty_node().children) == 0);
    if st.stack.len() > 0 {
        let top = st.stack.last();
        assert forall|v: Seq<char>| #[trigger] open_count(with_top(st.stack, TocNode { href: v, ..top })) == open_count(st.stack) by {
            lemma_open_count_top(st.stack, TocNode { href: v, ..top });
        }
        assert forall|v: Seq<char>| #[trigger] open_count(with_top(st.stack, TocNode { label: v, ..top })) == open_count(st.stack) by {
            lemma_open_count_top(st.stack, TocNode { label: v, ..top });
        }
        let rest = st.stack.drop_last();
        assert(open_count(st.stack) == open_count(rest) + trees_count(top.children));
        let item = TocNode { label: crate::text::trim(top.label), ..top };
        lemma_attach_count(rest, st.items, item);
        lemma_attach_all_count(rest, st.items, item.children);
        assert(tree_count(item) == 1 + trees_count(top.children));
        match e {
            EventView::End(name, _) => {
                if name == "li"@ && st.in_toc_nav {
                    assert("li"@.len() == 2 && "a"@.len() == 1);
                    assert(name != "a"@);
                    let (s2, i2) = crate::ncx::close_li(st.items, st.stack);
                    assert(nav_step(st, e).stack == s2 && nav_step(st, e).items == i2);
                }
            },
            _ => {},
        }
    } else {
        assert(crate::ncx::close_li(st.items, st.stack) == (st.stack, st.items));
    }
}

proof fn lemma_nav_run_count(evs: Seq<EventView>, i: int, st: NavState)
    ensures
        ({
            let fin = nav_run(evs, i, st);
            open_count(fin.stack) + trees_count(fin.items) == open_count(st.stack) + trees_count(st.items)
                + linked_items_closed(evs, i, st)
        }),
    decreases evs.len() - i,
{
    if !(i < 0 || i >= evs.len() || is_terminal(evs[i])) {
        lemma_nav_step_count(st, evs[i]);
        lemma_nav_run_count(evs, i + 1, nav_step(st, evs[i]));
    }
}

/// No entry of a navigation document's table of contents is lost: the
/// entries read, at any depth, together with those still held in list items
/// left open, are as many as the closed list items that have a label and a
/// target. A list item without them drops itself only, passing its entries
/// on to its parent; when every list item is closed, the table holds exactly
/// one entry per linked list item.
pub proof fn law_nav_keeps_every_linked_item(evs: Seq<EventView>)
    ensures
        ({
            let st0 = NavState { items: seq![], stack: seq![], in_toc_nav: false, in_link: false };
            let fin = nav_run(evs, 0, st0);
            &&& fin.items == spec_parse_nav(evs)
            &&& trees_count(spec_parse_nav(evs)) + open_count(fin.stack) == linked_items_closed(evs, 0, st0)
        }),
{
    let st0 = NavState { items: seq![], stack: seq![], in_toc_nav: false, in_link: false };
    assert(open_count(st0.stack) == 0);
    assert(trees_count(st0.items) == 0);
    lemma_nav_run_count(evs, 0, st0);
}

// ─── Bold text in chapters ───────────────────────────────────────────────

proof fn lemma_byte_len_nonneg(s: Seq<char>)
    ensures
        byte_len_of_text(s) >= 0,
        s.len() > 0 ==> byte_len_of_text(s) > 0,
    decreases s.len(),
{
    if s.len() > 0 {
        lemma_byte_len_nonneg(s.drop_last());
    }
}

pub open spec fn byte_len_of_text(s: Seq<char>) -> int {
    crate::text::byte_len(s)
}

/// With ASCII text from `pos` on in which no `<` is followed by an `i` or
/// `I`, the next tag is not read as an image.
proof fn lemma_no_image(h: Seq<char>, pos: int)
    requires
        0 <= pos <= h.len(),
        crate::text::is_ascii_text(h.skip(pos)),
        forall|k: int|
            pos <= k < h.len() && #[trigger] h[k] == '<' ==> k + 1 < h.len() && h[k + 1] != 'i' && h[k + 1] != 'I',
    ensures
        !crate::html::image_first(h, pos),
{
    let r = h.skip(pos);
    let low = crate::text::lower_text(r);
    assert(low == crate::text::ascii_lower(r));
    let img = seq!['<', 'i', 'm', 'g'];
    match find_sub(low, img, 0) {
        None => {},
        Some(g) => {
            lemma_find_sub(low, img, 0);
            assert(low.subrange(g, g + 4)[0] == '<');
            assert(low.subrange(g, g + 4)[1] == 'i');
            assert(low[g] == '<' && low[g + 1] == 'i');
            assert(low[g] == crate::text::lower_char(r[g]));
            assert(low[g + 1] == crate::text::lower_char(r[g + 1]));
            assert(r[g] == h[pos + g]);
            assert(r[g + 1] == h[pos + g + 1]);
            assert(false);
        },
    }
}

/// The style a formatting tag turns on or off, read from the ASCII tag.
proof fn lemma_lower_fixed(tag: Seq<char>)
    requires
        forall|k: int| 0 <= k < tag.len() ==> !crate::text::is_upper(#[trigger] tag[k]) && (tag[k] as u32) < 128,
    ensures
        crate::text::lower_text(tag) == tag,
{
    assert(crate::text::is_ascii_text(tag));
    assert(crate::text::ascii_lower(tag) =~= tag);
}

/// The opening and closing tag of bold text.
pub open spec fn bold_tags(strong: bool) -> (Seq<char>, Seq<char>) {
    if strong {
        (seq!['<', 's', 't', 'r', 'o', 'n', 'g', '>'], seq!['<', '/', 's', 't', 'r', 'o', 'n', 'g', '>'])
    } else {
        (seq!['<', 'b', '>'], seq!['<', '/', 'b', '>'])
    }
}

/// Every span of a list is bold or blank.
pub open spec fn bold_or_blank(spans: Seq<crate::types::SpanView>) -> bool {
    forall|j: int| 0 <= j < spans.len() ==> (#[trigger] spans[j]).bold || crate::text::trim(spans[j].text).len() == 0
}

proof fn lemma_push_text_style(piece: Seq<char>, st: crate::html::Style, spans: Seq<crate::types::SpanView>)
    ensures
        ({
            let r = crate::html::spec_push_text(piece, st, spans);
            &&& r.len() >= spans.len()
            &&& forall|j: int| 0 <= j < spans.len() ==> r[j] == spans[j]
            &&& forall|j: int| spans.len() <= j < r.len() ==> (#[trigger] r[j]).bold == st.bold
        }),
{
}

proof fn lemma_bold_tags(strong: bool)
    ensures
        ({
            let (open, close) = bold_tags(strong);
            let st1 = crate::html::next_style(crate::html::initial_style(), open, open);
            &&& st1.bold
            &&& open.len() >= 3 && close.len() >= 4
            &&& open[0] == '<' && open[open.len() - 1] == '>'
            &&& open[1] != 'i' && open[1] != 'I'
            &&& close[0] == '<' && close[1] == '/' && close[close.len() - 1] == '>'
            &&& forall|k: int| 0 < k < open.len() ==> open[k] != '<'
            &&& forall|k: int| 0 <= k < open.len() - 1 ==> open[k] != '>'
            &&& forall|k: int| 0 < k < close.len() ==> close[k] != '<'
            &&& forall|k: int| 0 <= k < close.len() - 1 ==> close[k] != '>'
            &&& crate::text::lower_text(open) == open
            &&& crate::text::lower_text(close) == close
            &&& !crate::text::starts_with(open, seq!['<', 'b', 'r'])
            &&& !crate::text::starts_with(open, seq!['<', 'h', 'r'])
            &&& !crate::text::starts_with(close, seq!['<', 'b', 'r'])
            &&& !crate::text::starts_with(close, seq!['<', 'h', 'r'])
            &&& !crate::html::spec_is_block_boundary(close)
            &&& forall|k: int| 0 <= k < open.len() ==> (open[k] as u32) < 128
            &&& forall|k: int| 0 <= k < close.len() ==> (close[k] as u32) < 128
        }),
{
    let (open, close) = bold_tags(strong);
    lemma_lower_fixed(open);
    lemma_lower_fixed(close);
    assert(open.subrange(0, open.len() as int) =~= open);
    if !strong {
        assert(crate::text::starts_with(open, seq!['<', 'b', '>']));
    } else {
        assert(!crate::text::starts_with(open, seq!['<', 'b', '>'])) by {
            assert(open.subrange(0, 3)[1] == 's');
        }
        assert(crate::text::starts_with(open, seq!['<', 's', 't', 'r', 'o', 'n', 'g', '>']));
    }
    assert(!crate::text::starts_with(open, seq!['<', 'b', 'r'])) by {
        assert(open.subrange(0, 3)[2] != 'r');
    }
    assert(!crate::text::starts_with(open, seq!['<', 'h', 'r'])) by {
        assert(open.subrange(0, 3)[1] != 'h');
    }
    assert(!crate::text::starts_with(close, seq!['<', 'b', 'r'])) by {
        assert(close.subrange(0, 3)[1] == '/');
    }
    assert(!crate::text::starts_with(close, seq!['<', 'h', 'r'])) by {
        assert(close.subrange(0, 3)[1] == '/');
    }
    assert(!crate::html::spec_is_block_boundary(close)) by {
        assert(close.subrange(0, 2)[1] == '/');
        assert(close.subrange(0, 3)[2] != 'p');
        assert(close.subrange(0, 4)[2] != 'd');
        assert(close.subrange(0, 4)[2] != 'l');
        assert(close.subrange(0, 3)[1] != 'h');
        assert(close.subrange(0, 3)[1] != 'b');
    }
}

/// The first steps: the opening tag, the text and the closing tag.
proof fn lemma_bold_steps(t: Seq<char>, base: Seq<char>, strong: bool)
    requires
        !t.contains('<'),
        crate::text::is_ascii_text(t),
    ensures
        ({
            let (open, close) = bold_tags(strong);
            let h = open + t + close;
            let p0 = open.len() as int;
            let t1 = p0 + t.len();
            let st0 = crate::html::initial_style();
            let st1 = crate::html::next_style(st0, open, open);
            let st2 = crate::html::next_style(st1, close, close);
            let e0 = Seq::<crate::types::SpanView>::empty();
            let g0 = Seq::<crate::types::SegmentView>::empty();
            let spans1 = if t1 > p0 {
                crate::html::spec_push_text(h.subrange(p0, t1), st1, e0)
            } else {
                e0
            };
            crate::html::spec_parse_html_segments(h, base) == crate::html::segments_from(
                h,
                base,
                h.len() as int,
                st2,
                spans1,
                g0,
            )
        }),
{
    lemma_bold_tags(strong);
    let (open, close) = bold_tags(strong);
    let h = open + t + close;
    let p0 = open.len() as int;
    let t1 = p0 + t.len();
    let n = h.len() as int;
    assert(forall|k: int| 0 <= k < t.len() ==> t[k] != '<');
    assert forall|q: int| 0 <= q <= n implies crate::text::is_ascii_text(#[trigger] h.skip(q)) by {
        assert forall|k: int| 0 <= k < h.skip(q).len() implies (#[trigger] h.skip(q)[k] as u32) < 128 by {
            let j = q + k;
            assert(h.skip(q)[k] == h[j]);
            if j < p0 {
                assert(h[j] == open[j]);
            } else if j < t1 {
                assert(h[j] == t[j - p0]);
            } else {
                assert(h[j] == close[j - t1]);
            }
        }
    }
    assert forall|k: int| 0 <= k < n && #[trigger] h[k] == '<' implies k == 0 || k == t1 by {
        if 0 < k < p0 {
            assert(h[k] == open[k]);
        } else if p0 <= k < t1 {
            assert(h[k] == t[k - p0]);
        } else if k > t1 {
            assert(h[k] == close[k - t1]);
        }
    }
    assert(h[0] == open[0]);
    assert(h[1] == open[1]);
    assert(h[t1] == close[0]);
    assert(h[t1 + 1] == close[1]);
    // The opening tag.
    lemma_find_char_at(h, '<', 0, 0);
    lemma_no_image(h, 0);
    assert(h[p0 - 1] == open[p0 - 1]);
    assert forall|k: int| 0 <= k < p0 - 1 implies h[k] != '>' by {
        assert(h[k] == open[k]);
    }
    lemma_find_char_at(h, '>', 0, p0 - 1);
    assert(h.subrange(0, p0) =~= open);
    let st0 = crate::html::initial_style();
    let st1 = crate::html::next_style(st0, open, open);
    let e0 = Seq::<crate::types::SpanView>::empty();
    let g0 = Seq::<crate::types::SegmentView>::empty();
    assert(crate::html::segments_from(h, base, 0, st0, e0, g0) == crate::html::segments_from(h, base, p0, st1, e0, g0));
    // The text and the closing tag.
    assert forall|k: int| p0 <= k < t1 implies h[k] != '<' by {
        assert(h[k] == t[k - p0]);
    }
    lemma_find_char_at(h, '<', p0, t1);
    lemma_no_image(h, p0);
    assert(h[n - 1] == close[close.len() - 1]);
    assert forall|k: int| t1 <= k < n - 1 implies h[k] != '>' by {
        assert(h[k] == close[k - t1]);
    }
    lemma_find_char_at(h, '>', t1, n - 1);
    assert(h.subrange(t1, n) =~= close);
}

/// Text set in `<strong>` or `<b>` comes out bold: in the segments of a
/// chapter made of such an element around plain ASCII text, every span with
/// visible text is bold (a blank separator may follow in the outer style),
/// and no image appears.
pub proof fn law_strong_text_is_bold(t: Seq<char>, base: Seq<char>, strong: bool)
    requires
        !t.contains('<'),
        crate::text::is_ascii_text(t),
    ensures
        ({
            let (open, close) = bold_tags(strong);
            let segs = crate::html::spec_parse_html_segments(open + t + close, base);
            forall|i: int|
                0 <= i < segs.len() ==> match #[trigger] segs[i] {
                    crate::types::SegmentView::StyledText(spans) => bold_or_blank(spans),
                    _ => false,
                }
        }),
{
    lemma_bold_tags(strong);
    lemma_bold_steps(t, base, strong);
    let (open, close) = bold_tags(strong);
    let h = open + t + close;
    let p0 = open.len() as int;
    let t1 = p0 + t.len();
    let n = h.len() as int;
    let st1 = crate::html::next_style(crate::html::initial_style(), open, open);
    let st2 = crate::html::next_style(st1, close, close);
    let e0 = Seq::<crate::types::SpanView>::empty();
    let g0 = Seq::<crate::types::SegmentView>::empty();
    lemma_push_text_style(h.subrange(p0, t1), st1, e0);
    let spans1 = if t1 > p0 {
        crate::html::spec_push_text(h.subrange(p0, t1), st1, e0)
    } else {
        e0
    };
    assert(bold_or_blank(spans1));
    // The end of the text.
    assert(crate::text::find_char(h, '<', n) == n);
    assert(!crate::html::image_first(h, n));
    let last = crate::html::spec_push_text(h.subrange(n, n), st2, spans1);
    assert(crate::html::segments_from(h, base, n, st2, spans1, g0) == crate::html::flush(g0, last));
    assert(h.subrange(n, n) =~= Seq::<char>::empty());
    assert(crate::html::spec_decode_entities(Seq::<char>::empty()) =~= Seq::<char>::empty());
    assert(crate::text::trim(Seq::<char>::empty()).len() == 0);
    assert(crate::text::trim(seq![' ']).len() == 0) by {
        assert(crate::text::skip_ws(seq![' '], 1) == 1);
        assert(crate::text::skip_ws(seq![' '], 0) == 1);
    }
    assert(bold_or_blank(last)) by {
        assert forall|j: int| 0 <= j < last.len() implies (#[trigger] last[j]).bold || crate::text::trim(last[j].text).len() == 0 by {
            if j < spans1.len() {
                assert(last[j] == spans1[j]);
            } else {
                assert(last[j].text == seq![' ']);
            }
        }
    }
    let segs = crate::html::spec_parse_html_segments(h, base);
    assert forall|i: int| 0 <= i < segs.len() implies match #[trigger] segs[i] {
        crate::types::SegmentView::StyledText(spans) => bold_or_blank(spans),
        _ => false,
    } by {
        assert(segs[i] == crate::types::SegmentView::StyledText(last));
    }
}

} // verus!
