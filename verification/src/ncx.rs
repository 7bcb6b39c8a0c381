//! Tables of contents from an NCX file (`navPoint` nesting) and from an
//! EPUB3 navigation document (the `toc` nav's `ol`/`li` nesting).

use vstd::prelude::*;
use crate::text::{chars_of, same_str, split_words, trim, trim_chars, string_of, words};
use crate::toc::{
    TocNode, append_label_part, attach_node, attach_toc_item, empty_node, lemma_nodes_index, lemma_nodes_push,
    node_of, nodes_of, spec_append_label,
};
use crate::types::TocItem;
use crate::xml::{EventView, XmlEvent, XmlTag, attr_views, is_terminal, read_events, stops, cooked_events};

verus! {

/// The events of a list, as values.
pub open spec fn event_views(s: Seq<XmlEvent>) -> Seq<EventView> {
    s.map_values(|e: XmlEvent| e@)
}

/// The value of the last attribute named `key`.
pub open spec fn last_attr(attrs: Seq<(Seq<char>, Seq<char>)>, key: Seq<char>) -> Option<Seq<char>>
    decreases attrs.len(),
{
    if attrs.len() == 0 {
        None
    } else if attrs.last().0 == key {
        Some(attrs.last().1)
    } else {
        last_attr(attrs.drop_last(), key)
    }
}

/// The value of the first attribute named `key`.
pub open spec fn first_attr(attrs: Seq<(Seq<char>, Seq<char>)>, key: Seq<char>) -> Option<Seq<char>>
    decreases attrs.len(),
{
    if attrs.len() == 0 {
        None
    } else if attrs[0].0 == key {
        Some(attrs[0].1)
    } else {
        first_attr(attrs.drop_first(), key)
    }
}

/// The open entries with the innermost one's fields replaced.
pub open spec fn with_top(stack: Seq<TocNode>, n: TocNode) -> Seq<TocNode> {
    stack.drop_last().push(n)
}

/// The `src` attribute of a `content` element becomes the target of the
/// innermost open entry, unless that entry has one already.
pub open spec fn with_src(stack: Seq<TocNode>, attrs: Seq<(Seq<char>, Seq<char>)>) -> Seq<TocNode> {
    if stack.len() > 0 && stack.last().href.len() == 0 {
        match last_attr(attrs, "src"@) {
            Some(v) => with_top(stack, TocNode { href: v, ..stack.last() }),
            None => stack,
        }
    } else {
        stack
    }
}

// ─── Shared steps on the stack of open entries ───────────────────────────

/// Opens a new, empty entry.
fn open_entry(stack: &mut Vec<TocItem>)
    ensures
        nodes_of(final(stack)@) == nodes_of(old(stack)@).push(empty_node()),
{
    let t = TocItem { label: String::new(), href: String::new(), children: Vec::new() };
    proof {
        assert(nodes_of(t.children@) =~= Seq::<TocNode>::empty());
        lemma_nodes_push(stack@, t);
    }
    stack.push(t);
}

/// Sets the label of the innermost open entry.
fn set_top_label(stack: &mut Vec<TocItem>, label: String)
    requires
        old(stack)@.len() > 0,
    ensures
        nodes_of(final(stack)@) == with_top(
            nodes_of(old(stack)@),
            TocNode { label: label@, ..nodes_of(old(stack)@).last() },
        ),
{
    let mut top = stack.pop().unwrap();
    let ghost rest = stack@;
    let ghost t0 = top;
    assert(old(stack)@.drop_last() =~= rest);
    assert(nodes_of(old(stack)@) == nodes_of(rest).push(node_of(t0)));
    assert(nodes_of(old(stack)@).drop_last() =~= nodes_of(rest));
    top.label = label;
    proof {
        lemma_nodes_push(rest, top);
    }
    stack.push(top);
}

/// Sets the target of the innermost open entry.
fn set_top_href(stack: &mut Vec<TocItem>, href: String)
    requires
        old(stack)@.len() > 0,
    ensures
        nodes_of(final(stack)@) == with_top(
            nodes_of(old(stack)@),
            TocNode { href: href@, ..nodes_of(old(stack)@).last() },
        ),
{
    let mut top = stack.pop().unwrap();
    let ghost rest = stack@;
    let ghost t0 = top;
    assert(old(stack)@.drop_last() =~= rest);
    assert(nodes_of(old(stack)@) == nodes_of(rest).push(node_of(t0)));
    assert(nodes_of(old(stack)@).drop_last() =~= nodes_of(rest));
    top.href = href;
    proof {
        lemma_nodes_push(rest, top);
    }
    stack.push(top);
}

/// Captures the `src` attribute of an NCX `content` element onto the
/// innermost open `navPoint`, keeping the first value seen.
pub fn set_ncx_src(stack: &mut Vec<TocItem>, e: &XmlTag)
    ensures
        nodes_of(final(stack)@) == with_src(nodes_of(old(stack)@), e@.attrs),
{
    let n = stack.len();
    if n == 0 {
        return;
    }
    proof {
        lemma_nodes_index(stack@);
    }
    if chars_of(stack[n - 1].href.as_str()).len() != 0 {
        return;
    }
    let ghost s0 = nodes_of(stack@);
    let ghost attrs = e@.attrs;
    let mut k: usize = 0;
    let mut found: Option<usize> = None;
    while k < e.attrs.len()
        invariant
            0 <= k <= e.attrs.len(),
            attrs == attr_views(e.attrs@),
            found matches Some(j) ==> j < k && last_attr(attrs.take(k as int), "src"@) == Some(attrs[j as int].1),
            found is None ==> last_attr(attrs.take(k as int), "src"@) is None,
        decreases e.attrs.len() - k,
    {
        assert(attrs.take(k + 1).drop_last() =~= attrs.take(k as int));
        if same_str(e.attrs[k].key.as_str(), "src") {
            found = Some(k);
        }
        k += 1;
    }
    assert(attrs.take(k as int) =~= attrs);
    match found {
        Some(j) => {
            let v = e.attrs[j].raw.clone();
            set_top_href(stack, v);
        },
        None => {},
    }
}

// ─── NCX ─────────────────────────────────────────────────────────────────

/// Where the NCX reading stands: the finished top-level entries, the open
/// `navPoint`s, and whether a `navLabel` and a `text` element are open.
pub struct NcxState {
    pub items: Seq<TocNode>,
    pub stack: Seq<TocNode>,
    pub in_label: bool,
    pub in_text: bool,
}

/// Closes the innermost open entry: it is kept when it has a label or
/// children.
pub open spec fn close_point(items: Seq<TocNode>, stack: Seq<TocNode>) -> (Seq<TocNode>, Seq<TocNode>) {
    if stack.len() == 0 {
        (stack, items)
    } else {
        let item = stack.last();
        if item.label.len() > 0 || item.children.len() > 0 {
            attach_node(stack.drop_last(), items, item)
        } else {
            (stack.drop_last(), items)
        }
    }
}

/// One event of an NCX file.
pub open spec fn ncx_step(st: NcxState, e: EventView) -> NcxState {
    match e {
        EventView::Start(t) => {
            if t.name == "navPoint"@ {
                NcxState { stack: st.stack.push(empty_node()), ..st }
            } else if t.name == "navLabel"@ {
                NcxState { in_label: true, ..st }
            } else if t.name == "text"@ {
                NcxState { in_text: true, ..st }
            } else if t.name == "content"@ {
                NcxState { stack: with_src(st.stack, t.attrs), ..st }
            } else {
                st
            }
        },
        EventView::Text(txt) => {
            if st.in_text && st.in_label && st.stack.len() > 0 && st.stack.last().label.len() == 0 {
                let l = match txt {
                    Some(s) => s,
                    None => seq![],
                };
                NcxState { stack: with_top(st.stack, TocNode { label: l, ..st.stack.last() }), ..st }
            } else {
                st
            }
        },
        EventView::End(name, _) => {
            if name == "navLabel"@ {
                NcxState { in_label: false, ..st }
            } else if name == "text"@ {
                NcxState { in_text: false, ..st }
            } else if name == "navPoint"@ {
                let (s2, i2) = close_point(st.items, st.stack);
                NcxState { stack: s2, items: i2, ..st }
            } else {
                st
            }
        },
        EventView::Empty(t) => {
            if t.name == "content"@ {
                NcxState { stack: with_src(st.stack, t.attrs), ..st }
            } else {
                st
            }
        },
        _ => st,
    }
}

/// The NCX reading from event `i` on, stopping at the end or an error.
pub open spec fn ncx_run(evs: Seq<EventView>, i: int, st: NcxState) -> NcxState
    decreases evs.len() - i,
{
    if i < 0 || i >= evs.len() || is_terminal(evs[i]) {
        st
    } else {
        ncx_run(evs, i + 1, ncx_step(st, evs[i]))
    }
}

/// The table of contents an NCX file's events describe.
pub open spec fn spec_parse_ncx(evs: Seq<EventView>) -> Seq<TocNode> {
    ncx_run(evs, 0, NcxState { items: seq![], stack: seq![], in_label: false, in_text: false }).items
}

/// Closes the innermost open `navPoint`.
fn close_nav_point(stack: &mut Vec<TocItem>, items: &mut Vec<TocItem>)
    ensures
        (nodes_of(final(stack)@), nodes_of(final(items)@)) == close_point(
            nodes_of(old(items)@),
            nodes_of(old(stack)@),
        ),
{
    let ghost s0 = stack@;
    match stack.pop() {
        Some(item) => {
            assert(s0.drop_last() =~= stack@);
            proof {
                lemma_nodes_index(item.children@);
            }
            if chars_of(item.label.as_str()).len() > 0 || item.children.len() > 0 {
                attach_toc_item(stack, items, item);
            }
        },
        None => {},
    }
}

/// The table of contents described by the events of an NCX file, as a tree
/// following the `navPoint` nesting.
pub fn ncx_from_events(evs: &Vec<XmlEvent>) -> (r: Vec<TocItem>)
    ensures
        nodes_of(r@) == spec_parse_ncx(event_views(evs@)),
{
    let ghost ev = event_views(evs@);
    let ghost init = NcxState { items: seq![], stack: seq![], in_label: false, in_text: false };
    let mut items: Vec<TocItem> = Vec::new();
    let mut stack: Vec<TocItem> = Vec::new();
    let mut in_label = false;
    let mut in_text = false;
    let mut i: usize = 0;
    assert(nodes_of(items@) =~= Seq::<TocNode>::empty());
    assert(nodes_of(stack@) =~= Seq::<TocNode>::empty());
    while i < evs.len() && !stops(&evs[i])
        invariant
            0 <= i <= evs.len(),
            ev == event_views(evs@),
            ncx_run(
                ev,
                i as int,
                NcxState { items: nodes_of(items@), stack: nodes_of(stack@), in_label, in_text },
            ) == ncx_run(ev, 0, init),
        decreases evs.len() - i,
    {
        let ghost st = NcxState { items: nodes_of(items@), stack: nodes_of(stack@), in_label, in_text };
        assert(ev[i as int] == evs@[i as int]@);
        proof {
            lemma_nodes_index(stack@);
        }
        match &evs[i] {
            XmlEvent::Start(t) => {
                if same_str(t.name.as_str(), "navPoint") {
                    open_entry(&mut stack);
                } else if same_str(t.name.as_str(), "navLabel") {
                    in_label = true;
                } else if same_str(t.name.as_str(), "text") {
                    in_text = true;
                } else if same_str(t.name.as_str(), "content") {
                    set_ncx_src(&mut stack, t);
                }
            },
            XmlEvent::Text(txt) => {
                let n = stack.len();
                if in_text && in_label && n > 0 && chars_of(stack[n - 1].label.as_str()).len() == 0 {
                    let l = match txt {
                        Some(s) => s.clone(),
                        None => String::new(),
                    };
                    set_top_label(&mut stack, l);
                }
            },
            XmlEvent::End(name, _) => {
                if same_str(name.as_str(), "navLabel") {
                    in_label = false;
                } else if same_str(name.as_str(), "text") {
                    in_text = false;
                } else if same_str(name.as_str(), "navPoint") {
                    close_nav_point(&mut stack, &mut items);
                }
            },
            XmlEvent::Empty(t) => {
                if same_str(t.name.as_str(), "content") {
                    set_ncx_src(&mut stack, t);
                }
            },
            _ => {},
        }
        assert(NcxState { items: nodes_of(items@), stack: nodes_of(stack@), in_label, in_text } == ncx_step(
            st,
            ev[i as int],
        ));
        i += 1;
    }
    items
}

/// Parses an NCX file into a table-of-contents tree following the
/// `navPoint` nesting.
pub fn parse_ncx(xml: &str) -> (r: Vec<TocItem>)
    ensures
        nodes_of(r@) == spec_parse_ncx(cooked_events(xml@, true)),
{
    let evs = read_events(xml, true);
    ncx_from_events(&evs)
}


// ─── EPUB3 navigation document ───────────────────────────────────────────

/// Where the navigation reading stands: the finished top-level entries, the
/// open `li` entries, and whether the `toc` nav and a link are open.
pub struct NavState {
    pub items: Seq<TocNode>,
    pub stack: Seq<TocNode>,
    pub in_toc_nav: bool,
    pub in_link: bool,
}

/// An `epub:type` or `type` attribute among whose words is `toc`.
pub open spec fn is_toc_attr(a: (Seq<char>, Seq<char>)) -> bool {
    (a.0 == "epub:type"@ || a.0 == "type"@) && words(a.1).contains("toc"@)
}

/// Whether a `nav` element is the table of contents.
pub open spec fn is_toc_nav(attrs: Seq<(Seq<char>, Seq<char>)>) -> bool {
    exists|k: int| 0 <= k < attrs.len() && is_toc_attr(#[trigger] attrs[k])
}

/// Finished entries attached one after the other.
pub open spec fn attach_all(stack: Seq<TocNode>, items: Seq<TocNode>, kids: Seq<TocNode>) -> (Seq<TocNode>, Seq<TocNode>)
    decreases kids.len(),
{
    if kids.len() == 0 {
        (stack, items)
    } else {
        let (s, i) = attach_all(stack, items, kids.drop_last());
        attach_node(s, i, kids.last())
    }
}

/// Closes the innermost open `li`: its label is trimmed; with a label and a
/// target it is kept, else its children (if any) are lifted onto its parent.
pub open spec fn close_li(items: Seq<TocNode>, stack: Seq<TocNode>) -> (Seq<TocNode>, Seq<TocNode>) {
    if stack.len() == 0 {
        (stack, items)
    } else {
        let item = TocNode { label: trim(stack.last().label), ..stack.last() };
        if item.label.len() > 0 && item.href.len() > 0 {
            attach_node(stack.drop_last(), items, item)
        } else {
            attach_all(stack.drop_last(), items, item.children)
        }
    }
}

/// One event of a navigation document.
pub open spec fn nav_step(st: NavState, e: EventView) -> NavState {
    match e {
        EventView::Start(t) => {
            if t.name == "nav"@ {
                NavState { in_toc_nav: is_toc_nav(t.attrs), ..st }
            } else if t.name == "li"@ && st.in_toc_nav {
                NavState { stack: st.stack.push(empty_node()), ..st }
            } else if t.name == "a"@ && st.in_toc_nav && st.stack.len() > 0 {
                let h = match first_attr(t.attrs, "href"@) {
                    Some(v) => v,
                    None => seq![],
                };
                NavState { in_link: true, stack: with_top(st.stack, TocNode { href: h, ..st.stack.last() }), ..st }
            } else {
                st
            }
        },
        EventView::Text(txt) => {
            if st.in_link && st.stack.len() > 0 {
                let part = match txt {
                    Some(s) => s,
                    None => seq![],
                };
                let top = st.stack.last();
                NavState {
                    stack: with_top(st.stack, TocNode { label: spec_append_label(top.label, part), ..top }),
                    ..st
                }
            } else {
                st
            }
        },
        EventView::End(name, _) => {
            if name == "a"@ && st.in_link {
                NavState { in_link: false, ..st }
            } else if name == "li"@ && st.in_toc_nav {
                let (s2, i2) = close_li(st.items, st.stack);
                NavState { stack: s2, items: i2, ..st }
            } else if name == "nav"@ {
                NavState { in_toc_nav: false, ..st }
            } else {
                st
            }
        },
        _ => st,
    }
}

/// The navigation reading from event `i` on, stopping at the end or an
/// error.
pub open spec fn nav_run(evs: Seq<EventView>, i: int, st: NavState) -> NavState
    decreases evs.len() - i,
{
    if i < 0 || i >= evs.len() || is_terminal(evs[i]) {
        st
    } else {
        nav_run(evs, i + 1, nav_step(st, evs[i]))
    }
}

/// The table of contents a navigation document's events describe.
pub open spec fn spec_parse_nav(evs: Seq<EventView>) -> Seq<TocNode> {
    nav_run(evs, 0, NavState { items: seq![], stack: seq![], in_toc_nav: false, in_link: false }).items
}

/// Whether a `nav` element's attributes mark it as the table of contents.
fn toc_nav_exec(t: &XmlTag) -> (b: bool)
    ensures
        b == is_toc_nav(t@.attrs),
{
    let ghost attrs = t@.attrs;
    let mut k: usize = 0;
    while k < t.attrs.len()
        invariant
            0 <= k <= t.attrs.len(),
            attrs == attr_views(t.attrs@),
            forall|j: int| 0 <= j < k ==> !is_toc_attr(#[trigger] attrs[j]),
        decreases t.attrs.len() - k,
    {
        let key = t.attrs[k].key.as_str();
        assert(key@ == attrs[k as int].0);
        if same_str(key, "epub:type") || same_str(key, "type") {
            let v = chars_of(t.attrs[k].raw.as_str());
            assert(v@ == attrs[k as int].1);
            let ws = split_words(&v);
            let mut m: usize = 0;
            while m < ws.len()
                invariant
                    0 <= m <= ws.len(),
                    k < t.attrs.len(),
                    attrs == attr_views(t.attrs@),
                    attrs[k as int].0 == "epub:type"@ || attrs[k as int].0 == "type"@,
                    crate::text::views(ws@) == words(attrs[k as int].1),
                    forall|j: int| 0 <= j < m ==> ws@[j]@ != "toc"@,
                decreases ws.len() - m,
            {
                let w = string_of(&ws[m]);
                if same_str(w.as_str(), "toc") {
                    proof {
                        assert(crate::text::views(ws@)[m as int] == ws@[m as int]@);
                        assert(words(attrs[k as int].1)[m as int] == "toc"@);
                        assert(is_toc_attr(attrs[k as int]));
                    }
                    return true;
                }
                m += 1;
            }
            proof {
                if words(attrs[k as int].1).contains("toc"@) {
                    let j = choose|j: int| 0 <= j < words(attrs[k as int].1).len() && words(attrs[k as int].1)[j] == "toc"@;
                    assert(crate::text::views(ws@)[j] == ws@[j]@);
                    assert(ws@[j]@ == "toc"@);
                }
                assert(!is_toc_attr(attrs[k as int]));
            }
        }
        k += 1;
    }
    false
}

/// The value of the first `href` attribute, or nothing.
fn href_of(t: &XmlTag) -> (r: String)
    ensures
        r@ == match first_attr(t@.attrs, "href"@) {
            Some(v) => v,
            None => seq![],
        },
{
    let ghost attrs = t@.attrs;
    let mut k: usize = 0;
    assert(attrs.skip(0) =~= attrs);
    while k < t.attrs.len()
        invariant
            0 <= k <= t.attrs.len(),
            attrs == attr_views(t.attrs@),
            first_attr(attrs.skip(k as int), "href"@) == first_attr(attrs, "href"@),
        decreases t.attrs.len() - k,
    {
        assert(attrs.skip(k as int).drop_first() =~= attrs.skip(k + 1));
        if same_str(t.attrs[k].key.as_str(), "href") {
            return t.attrs[k].raw.clone();
        }
        k += 1;
    }
    assert(attrs.skip(k as int) =~= Seq::<(Seq<char>, Seq<char>)>::empty());
    String::new()
}

/// Appends a text chunk to the label of the innermost open entry.
fn append_top_label(stack: &mut Vec<TocItem>, part: &str)
    requires
        old(stack)@.len() > 0,
    ensures
        nodes_of(final(stack)@) == with_top(
            nodes_of(old(stack)@),
            TocNode {
                label: spec_append_label(nodes_of(old(stack)@).last().label, part@),
                ..nodes_of(old(stack)@).last()
            },
        ),
{
    let mut top = stack.pop().unwrap();
    let ghost rest = stack@;
    let ghost t0 = top;
    assert(old(stack)@.drop_last() =~= rest);
    assert(nodes_of(old(stack)@) == nodes_of(rest).push(node_of(t0)));
    assert(nodes_of(old(stack)@).drop_last() =~= nodes_of(rest));
    append_label_part(&mut top.label, part);
    proof {
        lemma_nodes_push(rest, top);
    }
    stack.push(top);
}

/// Closes the innermost open `li` of the navigation document.
fn close_nav_li(stack: &mut Vec<TocItem>, items: &mut Vec<TocItem>)
    ensures
        (nodes_of(final(stack)@), nodes_of(final(items)@)) == close_li(nodes_of(old(items)@), nodes_of(old(stack)@)),
{
    let ghost s0 = stack@;
    match stack.pop() {
        Some(item) => {
            assert(s0.drop_last() =~= stack@);
            assert(nodes_of(s0) == nodes_of(stack@).push(node_of(item)));
            assert(nodes_of(s0).drop_last() =~= nodes_of(stack@));
            let label = string_of(&trim_chars(&chars_of(item.label.as_str())));
            let has_label = chars_of(label.as_str()).len() > 0;
            let has_href = chars_of(item.href.as_str()).len() > 0;
            let ghost kids0 = item.children@;
            let ghost n = TocNode { label: trim(node_of(item).label), ..node_of(item) };
            if has_label && has_href {
                let t = TocItem { label, href: item.href, children: item.children };
                assert(node_of(t) == n);
                attach_toc_item(stack, items, t);
            } else {
                let mut kids = item.children;
                let ghost ks = nodes_of(kids0);
                proof {
                    lemma_nodes_index(kids0);
                }
                let ghost s1 = nodes_of(stack@);
                let ghost i1 = nodes_of(items@);
                let mut k: usize = 0;
                let n_kids = kids.len();
                assert(ks.take(0) =~= Seq::<TocNode>::empty());
                while k < n_kids
                    invariant
                        0 <= k <= n_kids,
                        n_kids == kids0.len(),
                        ks == nodes_of(kids0),
                        ks.len() == kids0.len(),
                        forall|j: int| 0 <= j < kids0.len() ==> #[trigger] ks[j] == node_of(kids0[j]),
                        kids@ == kids0.skip(k as int),
                        (nodes_of(stack@), nodes_of(items@)) == attach_all(s1, i1, ks.take(k as int)),
                    decreases n_kids - k,
                {
                    let c = kids.remove(0);
                    assert(c == kids0[k as int]);
                    assert(kids0.skip(k as int).remove(0) =~= kids0.skip(k + 1));
                    attach_toc_item(stack, items, c);
                    assert(ks.take(k + 1).drop_last() =~= ks.take(k as int));
                    k += 1;
                }
                assert(ks.take(k as int) =~= ks);
            }
        },
        None => {},
    }
}

/// The table of contents described by the events of a navigation
/// document: only the nav marked `toc` counts, and entries keep the nesting
/// of its `ol`/`li` structure.
pub fn nav_from_events(evs: &Vec<XmlEvent>) -> (r: Vec<TocItem>)
    ensures
        nodes_of(r@) == spec_parse_nav(event_views(evs@)),
{
    let ghost ev = event_views(evs@);
    let ghost init = NavState { items: seq![], stack: seq![], in_toc_nav: false, in_link: false };
    let mut items: Vec<TocItem> = Vec::new();
    let mut stack: Vec<TocItem> = Vec::new();
    let mut in_toc_nav = false;
    let mut in_link = false;
    let mut i: usize = 0;
    assert(nodes_of(items@) =~= Seq::<TocNode>::empty());
    assert(nodes_of(stack@) =~= Seq::<TocNode>::empty());
    while i < evs.len() && !stops(&evs[i])
        invariant
            0 <= i <= evs.len(),
            ev == event_views(evs@),
            nav_run(
                ev,
                i as int,
                NavState { items: nodes_of(items@), stack: nodes_of(stack@), in_toc_nav, in_link },
            ) == nav_run(ev, 0, init),
        decreases evs.len() - i,
    {
        let ghost st = NavState { items: nodes_of(items@), stack: nodes_of(stack@), in_toc_nav, in_link };
        assert(ev[i as int] == evs@[i as int]@);
        proof {
            lemma_nodes_index(stack@);
        }
        match &evs[i] {
            XmlEvent::Start(t) => {
                if same_str(t.name.as_str(), "nav") {
                    in_toc_nav = toc_nav_exec(t);
                } else if same_str(t.name.as_str(), "li") && in_toc_nav {
                    open_entry(&mut stack);
                } else if same_str(t.name.as_str(), "a") && in_toc_nav {
                    if stack.len() > 0 {
                        in_link = true;
                        let h = href_of(t);
                        set_top_href(&mut stack, h);
                    }
                }
            },
            XmlEvent::Text(txt) => {
                if in_link && stack.len() > 0 {
                    match txt {
                        Some(s) => append_top_label(&mut stack, s.as_str()),
                        None => {
                            let e = String::new();
                            append_top_label(&mut stack, e.as_str());
                        },
                    }
                }
            },
            XmlEvent::End(name, _) => {
                if same_str(name.as_str(), "a") && in_link {
                    in_link = false;
                } else if same_str(name.as_str(), "li") && in_toc_nav {
                    close_nav_li(&mut stack, &mut items);
                } else if same_str(name.as_str(), "nav") {
                    in_toc_nav = false;
                }
            },
            _ => {},
        }
        assert(NavState { items: nodes_of(items@), stack: nodes_of(stack@), in_toc_nav, in_link } == nav_step(
            st,
            ev[i as int],
        ));
        i += 1;
    }
    items
}

/// Parses the table-of-contents `nav` of an EPUB3 navigation document into
/// a tree.
pub fn parse_nav_html(html: &str) -> (r: Vec<TocItem>)
    ensures
        nodes_of(r@) == spec_parse_nav(cooked_events(html@, true)),
{
    let evs = read_events(html, true);
    nav_from_events(&evs)
}

} // verus!
