//! The reader's table-of-contents sidebar: search filtering and the
//! chapters the tree covers.

use vstd::prelude::*;
use std::collections::HashSet;
use crate::html::{find_sub, find_sub_exec};
use crate::loading::TocEntry;
use crate::text::{chars_of, lowercase, to_lowercase};

verus! {

broadcast use vstd::std_specs::hash::group_hash_axioms;

/// An entry matches a (lowercase) search query when its lowercased label
/// contains the query or one of its descendants matches.
pub open spec fn entry_matches(e: TocEntry, q: Seq<char>) -> bool
    decreases e, 1int,
{
    find_sub(lowercase(e.label@), q, 0) is Some || any_matches(e.children@, q)
}

pub open spec fn any_matches(es: Seq<TocEntry>, q: Seq<char>) -> bool
    decreases es, 0int,
{
    es.len() > 0 && (any_matches(es.drop_last(), q) || entry_matches(es.last(), q))
}

/// Whether an entry (or any descendant) matches the sidebar search query.
pub fn toc_matches(entry: &TocEntry, query: &str) -> (b: bool)
    ensures
        b == entry_matches(*entry, query@),
    decreases entry,
{
    let label = to_lowercase(entry.label.as_str());
    let l = chars_of(label.as_str());
    let q = chars_of(query);
    let qs = q.as_slice();
    assert(qs@ == q@);
    if find_sub_exec(&l, qs, 0).is_some() {
        return true;
    }
    let mut i: usize = 0;
    assert(entry.children@.take(0) =~= Seq::<TocEntry>::empty());
    while i < entry.children.len()
        invariant
            0 <= i <= entry.children.len(),
            !any_matches(entry.children@.take(i as int), query@),
        decreases entry.children.len() - i,
    {
        assert(decreases_to!(entry => entry.children@[i as int]));
        assert(entry.children@.take(i + 1).drop_last() =~= entry.children@.take(i as int));
        if toc_matches(&entry.children[i], query) {
            proof {
                lemma_any_matches_prefix(entry.children@, query@, i + 1);
            }
            return true;
        }
        i += 1;
    }
    assert(entry.children@.take(i as int) =~= entry.children@);
    false
}

proof fn lemma_any_matches_prefix(es: Seq<TocEntry>, q: Seq<char>, k: int)
    requires
        0 < k <= es.len(),
        any_matches(es.take(k), q),
    ensures
        any_matches(es, q),
    decreases es.len() - k,
{
    if k < es.len() {
        assert(es.take(k + 1).drop_last() =~= es.take(k));
        lemma_any_matches_prefix(es, q, k + 1);
    } else {
        assert(es.take(k) =~= es);
    }
}

/// The spine indexes a sidebar tree covers.
pub open spec fn chapters_of(e: TocEntry) -> Set<usize>
    decreases e, 1int,
{
    let own = match e.chapter {
        Some(i) => set![i],
        None => Set::empty(),
    };
    own + chapters_of_all(e.children@)
}

pub open spec fn chapters_of_all(es: Seq<TocEntry>) -> Set<usize>
    decreases es, 0int,
{
    if es.len() == 0 {
        Set::empty()
    } else {
        chapters_of_all(es.drop_last()) + chapters_of(es.last())
    }
}

/// Collects the spine indexes covered by a TOC tree.
pub fn collect_toc_chapters(entry: &TocEntry, out: &mut HashSet<usize>)
    ensures
        final(out)@ == old(out)@ + chapters_of(*entry),
    decreases entry,
{
    if let Some(index) = entry.chapter {
        out.insert(index);
    }
    assert(out@ == old(out)@ + match entry.chapter {
        Some(i) => set![i],
        None => Set::<usize>::empty(),
    });
    let ghost mid = out@;
    let mut i: usize = 0;
    assert(entry.children@.take(0) =~= Seq::<TocEntry>::empty());
    assert(mid =~= mid + chapters_of_all(entry.children@.take(0)));
    while i < entry.children.len()
        invariant
            0 <= i <= entry.children.len(),
            out@ == mid + chapters_of_all(entry.children@.take(i as int)),
        decreases entry.children.len() - i,
    {
        assert(decreases_to!(entry => entry.children@[i as int]));
        collect_toc_chapters(&entry.children[i], out);
        assert(entry.children@.take(i + 1).drop_last() =~= entry.children@.take(i as int));
        i += 1;
    }
    assert(entry.children@.take(i as int) =~= entry.children@);
    assert(out@ =~= old(out)@ + chapters_of(*entry));
}

/// The `(label, chapter)` pairs of a tree in depth-first order, for entries
/// that lead to a chapter.
pub open spec fn flat_pairs(es: Seq<TocEntry>) -> Seq<(Seq<char>, usize)>
    decreases es, 0int,
{
    if es.len() == 0 {
        seq![]
    } else {
        flat_pairs(es.drop_last()) + entry_pairs(es.last())
    }
}

pub open spec fn entry_pairs(e: TocEntry) -> Seq<(Seq<char>, usize)>
    decreases e, 1int,
{
    let own = match e.chapter {
        Some(i) => seq![(e.label@, i)],
        None => seq![],
    };
    own + flat_pairs(e.children@)
}

pub open spec fn pair_views(v: Seq<(String, usize)>) -> Seq<(Seq<char>, usize)> {
    v.map_values(|p: (String, usize)| (p.0@, p.1))
}

/// Flattens the TOC tree into `(label, chapter_index)` pairs in depth-first
/// order.
pub fn collect_toc_flat(entries: &[TocEntry], out: &mut Vec<(String, usize)>)
    ensures
        pair_views(final(out)@) == pair_views(old(out)@) + flat_pairs(entries@),
    decreases entries@,
{
    let mut i: usize = 0;
    assert(entries@.take(0) =~= Seq::<TocEntry>::empty());
    assert(pair_views(out@) =~= pair_views(old(out)@) + flat_pairs(entries@.take(0)));
    while i < entries.len()
        invariant
            0 <= i <= entries.len(),
            pair_views(out@) == pair_views(old(out)@) + flat_pairs(entries@.take(i as int)),
        decreases entries.len() - i,
    {
        let entry = &entries[i];
        let ghost before = pair_views(out@);
        if let Some(index) = entry.chapter {
            out.push((entry.label.clone(), index));
            assert(pair_views(out@) =~= before.push((entry.label@, index)));
        }
        let ghost mid = pair_views(out@);
        assert(decreases_to!(entries@ => entries@[i as int].children@));
        let kids = entry.children.as_slice();
        assert(kids@ == entry.children@);
        collect_toc_flat(kids, out);
        proof {
            assert(entries@.take(i + 1).drop_last() =~= entries@.take(i as int));
            let own = match entry.chapter {
                Some(k) => seq![(entry.label@, k)],
                None => seq![],
            };
            assert(mid =~= before + own);
            assert(pair_views(out@) =~= before + (own + flat_pairs(entry.children@)));
            assert(entries@.take(i + 1).last() == entries@[i as int]);
            assert(entry_pairs(*entry) == own + flat_pairs(entry.children@));
            assert(flat_pairs(entries@.take(i + 1)) == flat_pairs(entries@.take(i as int))
                + entry_pairs(*entry));
            assert(pair_views(out@) =~= pair_views(old(out)@) + flat_pairs(entries@.take(i + 1)));
        }
        i += 1;
    }
    assert(entries@.take(i as int) =~= entries@);
}

} // verus!
