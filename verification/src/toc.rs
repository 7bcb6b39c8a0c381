//! Table-of-contents trees: flattening, building from nested entries, and
//! the fallback built from the spine.

use vstd::prelude::*;
use crate::text::{chars_of, is_alnum};
use crate::types::{SpineItem, SpineView, TocItem, spine_views};

verus! {

/// A table-of-contents entry as a value: label, target and nested entries.
pub struct TocNode {
    pub label: Seq<char>,
    pub href: Seq<char>,
    pub children: Seq<TocNode>,
}

/// An entry without label, target or children.
pub open spec fn empty_node() -> TocNode {
    TocNode { label: seq![], href: seq![], children: seq![] }
}

/// What an entry holds.
pub open spec fn node_of(t: TocItem) -> TocNode
    decreases t, 1int,
{
    TocNode { label: t.label@, href: t.href@, children: nodes_of(t.children@) }
}

/// What a list of entries holds.
pub open spec fn nodes_of(ts: Seq<TocItem>) -> Seq<TocNode>
    decreases ts, 0int,
{
    if ts.len() == 0 {
        seq![]
    } else {
        nodes_of(ts.drop_last()).push(node_of(ts.last()))
    }
}

pub proof fn lemma_nodes_push(ts: Seq<TocItem>, x: TocItem)
    ensures
        nodes_of(ts.push(x)) == nodes_of(ts).push(node_of(x)),
{
    assert(ts.push(x).drop_last() =~= ts);
}

pub proof fn lemma_nodes_index(ts: Seq<TocItem>)
    ensures
        nodes_of(ts).len() == ts.len(),
        forall|i: int| 0 <= i < ts.len() ==> #[trigger] nodes_of(ts)[i] == node_of(ts[i]),
    decreases ts.len(),
{
    if ts.len() > 0 {
        lemma_nodes_index(ts.drop_last());
    }
}

/// A finished entry attached to the innermost open entry (the last of
/// `stack`), or to the roots `items` when none is open.
pub open spec fn attach_node(stack: Seq<TocNode>, items: Seq<TocNode>, n: TocNode) -> (Seq<TocNode>, Seq<TocNode>) {
    if stack.len() == 0 {
        (stack, items.push(n))
    } else {
        let p = stack.last();
        (stack.drop_last().push(TocNode { children: p.children.push(n), ..p }), items)
    }
}

/// The entries of a table of contents in depth-first document order: each
/// entry followed by its (flattened) children.
pub open spec fn flat_toc(items: Seq<TocItem>) -> Seq<TocItem>
    decreases items,
{
    if items.len() == 0 {
        seq![]
    } else {
        let last = items.last();
        flat_toc(items.drop_last()) + seq![last] + flat_toc(last.children@)
    }
}

/// The entries that a vector of references points to.
pub open spec fn derefs(v: Seq<&TocItem>) -> Seq<TocItem> {
    v.map_values(|r: &TocItem| *r)
}

/// Appends the depth-first flattening of `toc` to `out`.
fn flatten_toc_into<'a>(toc: &'a [TocItem], out: &mut Vec<&'a TocItem>)
    ensures
        derefs(final(out)@) == derefs(old(out)@) + flat_toc(toc@),
    decreases toc@,
{
    let mut i: usize = 0;
    assert(toc@.take(0) =~= Seq::<TocItem>::empty());
    while i < toc.len()
        invariant
            0 <= i <= toc.len(),
            derefs(out@) == derefs(old(out)@) + flat_toc(toc@.take(i as int)),
        decreases toc.len() - i,
    {
        let item = &toc[i];
        let ghost before = derefs(out@);
        out.push(item);
        assert(derefs(out@) =~= before.push(*item));
        assert(decreases_to!(toc@ => toc@[i as int].children@));
        let kids = item.children.as_slice();
        assert(kids@ == item.children@);
        flatten_toc_into(kids, out);
        proof {
            let t = toc@.take(i + 1);
            assert(t.drop_last() =~= toc@.take(i as int));
            assert(t.last() == toc@[i as int]);
        }
        i += 1;
    }
    assert(toc@.take(toc.len() as int) =~= toc@);
}

/// Depth-first flattening of a TOC tree, preserving document order.
pub fn flatten_toc(toc: &[TocItem]) -> (r: Vec<&TocItem>)
    ensures
        derefs(r@) == flat_toc(toc@),
{
    let mut flat: Vec<&TocItem> = Vec::new();
    assert(derefs(flat@) =~= Seq::<TocItem>::empty());
    flatten_toc_into(toc, &mut flat);
    assert(derefs(flat@) =~= flat_toc(toc@));
    flat
}

/// Attaches a finished entry to the innermost open entry (the top of
/// `stack`), or to the roots when no entry is open.
pub fn attach_toc_item(stack: &mut Vec<TocItem>, items: &mut Vec<TocItem>, item: TocItem)
    ensures
        old(stack)@.len() == 0 ==> final(stack)@ == old(stack)@ && final(items)@ == old(items)@.push(
            item,
        ),
        old(stack)@.len() > 0 ==> {
            let last = old(stack)@.len() - 1;
            &&& final(items)@ == old(items)@
            &&& final(stack)@.len() == old(stack)@.len()
            &&& final(stack)@.take(last) == old(stack)@.take(last)
            &&& final(stack)@[last].label == old(stack)@[last].label
            &&& final(stack)@[last].href == old(stack)@[last].href
            &&& final(stack)@[last].children@ == old(stack)@[last].children@.push(item)
        },
        (nodes_of(final(stack)@), nodes_of(final(items)@)) == attach_node(
            nodes_of(old(stack)@),
            nodes_of(old(items)@),
            node_of(item),
        ),
{
    let ghost n = node_of(item);
    match stack.pop() {
        Some(mut parent) => {
            let ghost p0 = parent;
            let ghost rest = stack@;
            parent.children.push(item);
            proof {
                lemma_nodes_push(p0.children@, item);
            }
            stack.push(parent);
            proof {
                let last = old(stack)@.len() - 1;
                assert(stack@.take(last) =~= old(stack)@.take(last));
                assert(old(stack)@.drop_last() =~= rest);
                lemma_nodes_push(rest, parent);
                assert(node_of(parent) == TocNode { children: node_of(p0).children.push(n), ..node_of(p0) });
            }
        },
        None => {
            items.push(item);
            proof {
                lemma_nodes_push(old(items)@, item);
            }
        },
    }
}

/// One entry per spine item, labelled with its id.
pub open spec fn toc_from_spine(spine: Seq<SpineView>) -> Seq<TocNode> {
    Seq::new(spine.len(), |i: int| TocNode { label: spine[i].id, href: spine[i].href, children: seq![] })
}

/// Fallback table of contents: one entry per spine item, labelled with its
/// id.
pub fn extract_toc_from_spine(spine: &[SpineItem]) -> (r: Vec<TocItem>)
    ensures
        r@.len() == spine@.len(),
        forall|i: int|
            0 <= i < spine@.len() ==> {
                &&& (#[trigger] r@[i]).label@ == spine@[i].id@
                &&& r@[i].href@ == spine@[i].href@
                &&& r@[i].children@.len() == 0
            },
        nodes_of(r@) == toc_from_spine(spine_views(spine@)),
{
    let mut r: Vec<TocItem> = Vec::new();
    let mut i: usize = 0;
    while i < spine.len()
        invariant
            0 <= i <= spine.len(),
            r@.len() == i,
            forall|k: int|
                0 <= k < i ==> {
                    &&& (#[trigger] r@[k]).label@ == spine@[k].id@
                    &&& r@[k].href@ == spine@[k].href@
                    &&& r@[k].children@.len() == 0
                },
        decreases spine.len() - i,
    {
        let item = &spine[i];
        r.push(TocItem { label: item.id.clone(), href: item.href.clone(), children: Vec::new() });
        i += 1;
    }
    proof {
        lemma_nodes_index(r@);
        assert forall|k: int| 0 <= k < r@.len() implies nodes_of(r@)[k] == toc_from_spine(spine_views(spine@))[k] by {
            assert(nodes_of(r@[k].children@) =~= Seq::<TocNode>::empty());
        }
        assert(nodes_of(r@) =~= toc_from_spine(spine_views(spine@)));
    }
    r
}

/// Whether `char::is_alphanumeric` holds of a character (Unicode
/// `Alphabetic` or `Numeric`).
pub uninterp spec fn unicode_alnum(c: char) -> bool;

/// `char::is_alphanumeric`. The contract names the result and states what
/// the documentation gives for ASCII: letters and digits are alphanumeric,
/// other ASCII characters are not.
#[verifier::external_body]
pub(crate) fn is_alphanumeric(c: char) -> (b: bool)
    ensures
        b == unicode_alnum(c),
        (c as u32) < 128 ==> (b == is_alnum(c)),
{
    c.is_alphanumeric()
}

/// A label with another text chunk appended: a space goes between them only
/// where two alphanumeric characters meet.
pub open spec fn spec_append_label(label: Seq<char>, part: Seq<char>) -> Seq<char> {
    if part.len() == 0 {
        label
    } else if label.len() > 0 && unicode_alnum(label.last()) && unicode_alnum(part[0]) {
        label + seq![' '] + part
    } else {
        label + part
    }
}

/// Appends a text chunk to a label, inserting a single space only where two
/// word characters meet.
pub fn append_label_part(label: &mut String, part: &str)
    ensures
        final(label)@ == spec_append_label(old(label)@, part@),
{
    let p = chars_of(part);
    if p.len() == 0 {
        return;
    }
    let l = chars_of(label.as_str());
    if l.len() > 0 {
        let first = p[0];
        let last = l[l.len() - 1];
        if is_alphanumeric(last) && is_alphanumeric(first) {
            label.append(" ");
            proof {
                reveal_strlit(" ");
            }
        }
    }
    label.append(part);
}

} // verus!
