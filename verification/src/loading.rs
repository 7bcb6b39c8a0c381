//! Mapping a book's table of contents onto its spine chapters: chapter
//! records, the sidebar tree, and the labels chapters take from the TOC.

use vstd::prelude::*;
use crate::paths::{resolve_path, spec_resolve_path};
use std::sync::atomic::{AtomicBool, Ordering};
use crate::document::{DocView, EpubDocument, spec_content};
use crate::html::{first_heading_text, spec_first_heading_text};
use crate::text::{chars_of, decimal, decimal_of, extend, extend_lit, starts_with, starts_with_exec, string_of};
use crate::types::{TocItem, opt_view};

verus! {

// ─── String-keyed maps ───────────────────────────────────────────────────

/// The map that a list of insertions builds: a later insertion of a key
/// replaces an earlier one.
pub open spec fn pairs_map<V>(p: Seq<(String, V)>) -> Map<Seq<char>, V>
    decreases p.len(),
{
    if p.len() == 0 {
        Map::empty()
    } else {
        pairs_map(p.drop_last()).insert(p.last().0@, p.last().1)
    }
}

/// A map keyed by strings, kept as the list of its insertions. It stands
/// where a `HashMap<String, V>` would: vstd states what a `HashMap` holds
/// only for key types whose hashing it models (`obeys_key_model`, given for
/// the integers and `bool`, not for `String`), so a `HashMap` keyed by
/// strings would tell verified code nothing of what it holds, not even what
/// a lookup gives back after an insertion.
pub struct StrMap<V> {
    pairs: Vec<(String, V)>,
}

impl<V> View for StrMap<V> {
    type V = Map<Seq<char>, V>;

    closed spec fn view(&self) -> Map<Seq<char>, V> {
        pairs_map(self.pairs@)
    }
}

impl<V> StrMap<V> {
    /// An empty map.
    pub fn new() -> (m: Self)
        ensures
            m@ == Map::<Seq<char>, V>::empty(),
    {
        StrMap { pairs: Vec::new() }
    }

    /// Maps `key` to `value`, replacing any earlier value.
    pub fn insert(&mut self, key: String, value: V)
        ensures
            final(self)@ == old(self)@.insert(key@, value),
    {
        self.pairs.push((key, value));
        assert(self.pairs@.drop_last() == old(self).pairs@);
    }

    /// The value of `key`, searched among the insertions from the last.
    fn find(&self, key: &String) -> (r: Option<usize>)
        ensures
            r matches Some(k) ==> k < self.pairs@.len() && self@.contains_key(key@) && self@[key@]
                == self.pairs@[k as int].1,
            r is None ==> !self@.contains_key(key@),
    {
        let mut k = self.pairs.len();
        assert(self.pairs@.take(k as int) =~= self.pairs@);
        while k > 0
            invariant
                k <= self.pairs@.len(),
                forall|m: int| k <= m < self.pairs@.len() ==> #[trigger] self.pairs@[m].0@ != key@,
                pairs_map(self.pairs@.take(k as int)).contains_key(key@) == self@.contains_key(
                    key@,
                ),
                pairs_map(self.pairs@.take(k as int)).contains_key(key@) ==> pairs_map(
                    self.pairs@.take(k as int),
                )[key@] == self@[key@],
            decreases k,
        {
            proof {
                lemma_pairs_map_take(self.pairs@, k as int);
            }
            if self.pairs[k - 1].0 == *key {
                proof {
                    let t = self.pairs@.take(k as int);
                    assert(t.last() == self.pairs@[k - 1]);
                }
                return Some(k - 1);
            }
            k -= 1;
        }
        assert(self.pairs@.take(0) =~= Seq::<(String, V)>::empty());
        None
    }

    /// The value of `key`, if it has one.
    pub fn get(&self, key: &str) -> (r: Option<&V>)
        ensures
            r matches Some(v) ==> self@.contains_key(key@) && *v == self@[key@],
            r is None ==> !self@.contains_key(key@),
    {
        let k = key.to_owned();
        match self.find(&k) {
            Some(i) => Some(&self.pairs[i].1),
            None => None,
        }
    }

    /// Maps `key` to `value` unless `key` already has a value.
    pub fn insert_if_absent(&mut self, key: String, value: V)
        ensures
            final(self)@ == (if old(self)@.contains_key(key@) {
                old(self)@
            } else {
                old(self)@.insert(key@, value)
            }),
    {
        if self.find(&key).is_none() {
            self.insert(key, value);
        }
    }
}

proof fn lemma_pairs_map_take<V>(p: Seq<(String, V)>, k: int)
    requires
        0 < k <= p.len(),
    ensures
        pairs_map(p.take(k)) == pairs_map(p.take(k - 1)).insert(p[k - 1].0@, p[k - 1].1),
{
    assert(p.take(k).drop_last() =~= p.take(k - 1));
}

// ─── Chapters ────────────────────────────────────────────────────────────

/// A chapter loaded into memory for rendering.
#[derive(Clone)]
pub struct Chapter {
    pub label: String,
    pub href: String,
    /// Raw chapter HTML, converted to Markdown for rendering.
    pub html: String,
}

/// One entry of the TOC sidebar tree.
pub struct TocEntry {
    pub label: String,
    pub href: String,
    /// Index into the loaded chapters, when this entry maps to a spine item.
    pub chapter: Option<usize>,
    pub children: Vec<TocEntry>,
}

/// Two sidebar entries with the same fields and (recursively) children.
pub open spec fn same_entry(a: TocEntry, b: TocEntry) -> bool
    decreases b, 1int,
{
    &&& a.label@ == b.label@
    &&& a.href@ == b.href@
    &&& a.chapter == b.chapter
    &&& same_entries(a.children@, b.children@)
}

pub open spec fn same_entries(a: Seq<TocEntry>, b: Seq<TocEntry>) -> bool
    decreases b, 0int,
{
    if a.len() != b.len() {
        false
    } else if b.len() == 0 {
        true
    } else {
        same_entries(a.drop_last(), b.drop_last()) && same_entry(a.last(), b.last())
    }
}

/// A deep copy of a sidebar entry.
pub fn copy_entry(e: &TocEntry) -> (r: TocEntry)
    ensures
        same_entry(r, *e),
    decreases e,
{
    let mut children: Vec<TocEntry> = Vec::new();
    let mut i: usize = 0;
    while i < e.children.len()
        invariant
            0 <= i <= e.children.len(),
            same_entries(children@, e.children@.take(i as int)),
        decreases e.children.len() - i,
    {
        assert(decreases_to!(e => e.children@[i as int]));
        let c = copy_entry(&e.children[i]);
        let ghost prev = children@;
        children.push(c);
        assert(children@.drop_last() == prev);
        assert(e.children@.take(i + 1).drop_last() =~= e.children@.take(i as int));
        i += 1;
    }
    assert(e.children@.take(i as int) =~= e.children@);
    TocEntry { label: e.label.clone(), href: e.href.clone(), chapter: e.chapter, children }
}

impl Clone for TocEntry {
    fn clone(&self) -> (r: Self)
        ensures
            same_entry(r, *self),
    {
        copy_entry(self)
    }
}

/// The chapter a TOC href leads to: the value of its resolved path.
pub open spec fn chapter_for(m: Map<Seq<char>, usize>, href: Seq<char>) -> Option<usize> {
    let key = spec_resolve_path(seq![], href);
    if m.contains_key(key) {
        Some(m[key])
    } else {
        None
    }
}

/// The sidebar entry `e` mirrors the TOC entry `it`: same label and href,
/// the chapter its href resolves to, and mirrored children.
pub open spec fn mirrors(e: TocEntry, it: TocItem, m: Map<Seq<char>, usize>) -> bool
    decreases it, 1int,
{
    &&& e.label@ == it.label@
    &&& e.href@ == it.href@
    &&& e.chapter == chapter_for(m, it.href@)
    &&& mirrors_all(e.children@, it.children@, m)
}

pub open spec fn mirrors_all(es: Seq<TocEntry>, its: Seq<TocItem>, m: Map<Seq<char>, usize>) -> bool
    decreases its, 0int,
{
    if es.len() != its.len() {
        false
    } else if its.len() == 0 {
        true
    } else {
        mirrors_all(es.drop_last(), its.drop_last(), m) && mirrors(es.last(), its.last(), m)
    }
}

/// Builds the sidebar tree, resolving each TOC href to a spine chapter
/// index.
pub fn map_toc_entries(items: &[TocItem], chapter_by_href: &StrMap<usize>) -> (r: Vec<TocEntry>)
    ensures
        mirrors_all(r@, items@, chapter_by_href@),
    decreases items@,
{
    let mut out: Vec<TocEntry> = Vec::new();
    let mut i: usize = 0;
    while i < items.len()
        invariant
            0 <= i <= items.len(),
            mirrors_all(out@, items@.take(i as int), chapter_by_href@),
        decreases items.len() - i,
    {
        let item = &items[i];
        let key = resolve_path("", item.href.as_str());
        proof {
            let empty = "";
            assert(empty@ =~= Seq::<char>::empty()) by {
                reveal_strlit("");
            }
        }
        let chapter = match chapter_by_href.get(key.as_str()) {
            Some(c) => Some(*c),
            None => None,
        };
        assert(decreases_to!(items@ => items@[i as int].children@));
        let kids = item.children.as_slice();
        assert(kids@ == item.children@);
        let children = map_toc_entries(kids, chapter_by_href);
        let ghost prev = out@;
        out.push(
            TocEntry { label: item.label.clone(), href: item.href.clone(), chapter, children },
        );
        assert(out@.drop_last() == prev);
        assert(items@.take(i + 1).drop_last() =~= items@.take(i as int));
        assert(key@ == spec_resolve_path(seq![], item.href@));
        assert(chapter == chapter_for(chapter_by_href@, item.href@));
        assert(mirrors(out@.last(), items@[i as int], chapter_by_href@));
        i += 1;
    }
    assert(items@.take(i as int) =~= items@);
    out
}

/// The label map after visiting `items` in document order: each resolved
/// href keeps the first label seen for it.
pub open spec fn labels_after(m: Map<Seq<char>, String>, items: Seq<TocItem>) -> Map<Seq<char>, String>
    decreases items,
{
    if items.len() == 0 {
        m
    } else {
        let before = labels_after(m, items.drop_last());
        let last = items.last();
        let key = spec_resolve_path(seq![], last.href@);
        let with_last = if before.contains_key(key) {
            before
        } else {
            before.insert(key, last.label)
        };
        labels_after(with_last, last.children@)
    }
}

/// Collects the first label found for each resolved TOC href.
pub fn toc_label_map(items: &[TocItem], out: &mut StrMap<String>)
    ensures
        final(out)@ == labels_after(old(out)@, items@),
    decreases items@,
{
    let mut i: usize = 0;
    assert(items@.take(0) =~= Seq::<TocItem>::empty());
    while i < items.len()
        invariant
            0 <= i <= items.len(),
            out@ == labels_after(old(out)@, items@.take(i as int)),
        decreases items.len() - i,
    {
        let item = &items[i];
        let key = resolve_path("", item.href.as_str());
        proof {
            let empty = "";
            assert(empty@ =~= Seq::<char>::empty()) by {
                reveal_strlit("");
            }
        }
        out.insert_if_absent(key, item.label.clone());
        assert(decreases_to!(items@ => items@[i as int].children@));
        let kids = item.children.as_slice();
        assert(kids@ == item.children@);
        toc_label_map(kids, out);
        assert(items@.take(i + 1).drop_last() =~= items@.take(i as int));
        i += 1;
    }
    assert(items@.take(i as int) =~= items@);
}

/// The placeholder label of the chapter at `index` (counted from 1).
pub open spec fn placeholder_label(index: int) -> Seq<char> {
    seq!['C', 'h', 'a', 'p', 't', 'e', 'r', ' '] + decimal((index + 1) as nat)
}

/// The label of the chapter at `index` whose resolved href is `resolved`:
/// its TOC label, or the placeholder `Chapter N`.
pub fn chapter_label(labels: &StrMap<String>, resolved: &String, index: usize) -> (r: String)
    ensures
        labels@.contains_key(resolved@) ==> r == labels@[resolved@],
        !labels@.contains_key(resolved@) ==> r@ == placeholder_label(index as int),
{
    match labels.get(resolved.as_str()) {
        Some(l) => l.clone(),
        None => placeholder(index),
    }
}

/// The placeholder label `Chapter N` for the chapter at `index`.
pub fn placeholder(index: usize) -> (r: String)
    ensures
        r@ == placeholder_label(index as int),
{
    let mut v: Vec<char> = Vec::new();
    extend_lit(&mut v, &['C', 'h', 'a', 'p', 't', 'e', 'r', ' ']);
    let d = decimal_of((index as u128) + 1);
    extend(&mut v, &d);
    string_of(&v)
}

/// The map from each spine chapter's resolved href to its index; a later
/// chapter with the same path replaces an earlier one.
pub open spec fn spine_map(hrefs: Seq<Seq<char>>) -> Map<Seq<char>, usize>
    decreases hrefs.len(),
{
    if hrefs.len() == 0 {
        Map::empty()
    } else {
        spine_map(hrefs.drop_last()).insert(
            spec_resolve_path(seq![], hrefs.last()),
            (hrefs.len() - 1) as usize,
        )
    }
}

pub open spec fn string_views(v: Seq<String>) -> Seq<Seq<char>> {
    v.map_values(|s: String| s@)
}

/// Maps each spine href (resolved) to its chapter index.
pub fn chapter_index_map(hrefs: &[String]) -> (r: StrMap<usize>)
    ensures
        r@ == spine_map(string_views(hrefs@)),
{
    let mut m: StrMap<usize> = StrMap::new();
    let mut i: usize = 0;
    assert(hrefs@.take(0) =~= Seq::<String>::empty());
    while i < hrefs.len()
        invariant
            0 <= i <= hrefs.len(),
            m@ == spine_map(string_views(hrefs@).take(i as int)),
        decreases hrefs.len() - i,
    {
        let key = resolve_path("", hrefs[i].as_str());
        proof {
            let empty = "";
            assert(empty@ =~= Seq::<char>::empty()) by {
                reveal_strlit("");
            }
        }
        m.insert(key, i);
        assert(string_views(hrefs@).take(i + 1).drop_last() =~= string_views(hrefs@).take(i as int));
        i += 1;
    }
    assert(string_views(hrefs@).take(i as int) =~= string_views(hrefs@));
    m
}


// ─── Loading a book ──────────────────────────────────────────────────────

/// A book ready for display: title, author, chapters and sidebar tree.
pub struct LoadedBook {
    pub title: String,
    pub author: String,
    pub chapters: Vec<Chapter>,
    pub toc: Vec<TocEntry>,
}

/// What a chapter holds: label, href and HTML.
pub open spec fn chapter_view(c: Chapter) -> (Seq<char>, Seq<char>, Seq<char>) {
    (c.label@, c.href@, c.html@)
}

/// The first label of each resolved TOC href.
pub open spec fn toc_labels(toc: Seq<TocItem>) -> Map<Seq<char>, Seq<char>> {
    labels_after(Map::empty(), toc).map_values(|s: String| s@)
}

/// The chapter at index `i` of the spine: its label is the first TOC label
/// of its resolved href, else the placeholder `Chapter N`; a chapter that
/// still has a placeholder-like label (`Chapter ...`) takes the title of its
/// first heading; a chapter that cannot be read gets the placeholder and an
/// error text.
pub open spec fn spec_chapter(d: DocView, labels: Map<Seq<char>, Seq<char>>, i: int) -> (Seq<char>, Seq<char>, Seq<char>) {
    let href = d.spine[i].href;
    let key = spec_resolve_path(seq![], href);
    let label0 = if labels.contains_key(key) {
        labels[key]
    } else {
        placeholder_label(i)
    };
    match spec_content(d, href) {
        Ok(html) => (
            if starts_with(label0, "Chapter "@) {
                match spec_first_heading_text(html) {
                    Some(t) => t,
                    None => label0,
                }
            } else {
                label0
            },
            href,
            html,
        ),
        Err(_) => (placeholder_label(i), href, "[Error loading chapter]"@),
    }
}

/// The author shown for a book: its creator, or `Unknown`.
pub open spec fn author_of(creator: Option<Seq<char>>) -> Seq<char> {
    match creator {
        Some(c) => c,
        None => "Unknown"@,
    }
}

/// Builds a single chapter's content from the document.
fn build_chapter(doc: &mut EpubDocument, href: &str, label: String) -> (r: Result<Chapter, String>)
    ensures
        final(doc)@ == old(doc)@,
        match spec_content(old(doc)@, href@) {
            Ok(h) => (r matches Ok(c) && chapter_view(c) == (label@, href@, h)),
            Err(e) => (r matches Err(m) && m@ == "Error loading "@ + href@ + ": "@ + e),
        },
{
    match doc.get_content(href) {
        Ok(html) => Ok(Chapter { label, href: href.to_owned(), html }),
        Err(e) => {
            let mut v = chars_of("Error loading ");
            extend(&mut v, &chars_of(href));
            extend(&mut v, &chars_of(": "));
            extend(&mut v, &chars_of(e.as_str()));
            proof {
                assert(v@ =~= "Error loading "@ + href@ + ": "@ + e@);
            }
            Err(string_of(&v))
        },
    }
}

/// Whether loading was asked to stop.
fn cancelled(flag: &AtomicBool) -> bool {
    flag.load(Ordering::SeqCst)
}

/// Reads every chapter of a document and builds its sidebar tree, checking
/// before each chapter whether loading was cancelled.
pub fn load_incremental(doc: &mut EpubDocument, cancel: &AtomicBool) -> (r: Result<LoadedBook, String>)
    ensures
        final(doc)@ == old(doc)@,
        old(doc).spine@.len() == 0 ==> (r matches Err(e) && e@ == "EPUB has no content"@),
        r matches Err(e) ==> old(doc).spine@.len() == 0 || e@ == "Cancelled"@,
        r matches Ok(b) ==> {
            &&& b.title@ == old(doc).metadata.title@
            &&& b.author@ == author_of(opt_view(old(doc).metadata.creator))
            &&& b.chapters@.len() == old(doc).spine@.len()
            &&& forall|i: int|
                0 <= i < b.chapters@.len() ==> chapter_view(#[trigger] b.chapters@[i]) == spec_chapter(
                    old(doc)@,
                    toc_labels(old(doc).toc@),
                    i,
                )
            &&& mirrors_all(
                b.toc@,
                old(doc).toc@,
                spine_map(old(doc)@.spine.map_values(|s: crate::types::SpineView| s.href)),
            )
        },
{
    let ghost d0 = doc@;
    let title = doc.metadata.title.clone();
    let author = match &doc.metadata.creator {
        Some(c) => c.clone(),
        None => "Unknown".to_owned(),
    };
    let n = doc.spine.len();
    if n == 0 {
        return Err("EPUB has no content".to_owned());
    }
    let mut hrefs: Vec<String> = Vec::new();
    let mut resolved: Vec<String> = Vec::new();
    let mut k: usize = 0;
    while k < n
        invariant
            0 <= k <= n,
            n == doc.spine@.len(),
            hrefs@.len() == k,
            resolved@.len() == k,
            forall|j: int| 0 <= j < k ==> #[trigger] hrefs@[j]@ == doc.spine@[j].href@,
            forall|j: int| 0 <= j < k ==> #[trigger] resolved@[j]@ == spec_resolve_path(seq![], doc.spine@[j].href@),
        decreases n - k,
    {
        hrefs.push(doc.spine[k].href.clone());
        resolved.push(resolve_path("", doc.spine[k].href.as_str()));
        proof {
            let empty = "";
            assert(empty@ =~= Seq::<char>::empty()) by {
                reveal_strlit("");
            }
        }
        k += 1;
    }
    let ghost hv = string_views(hrefs@);
    assert(hv =~= d0.spine.map_values(|s: crate::types::SpineView| s.href));
    let by_href = chapter_index_map(hrefs.as_slice());
    let mut labels: StrMap<String> = StrMap::new();
    toc_label_map(doc.toc.as_slice(), &mut labels);
    let toc = map_toc_entries(doc.toc.as_slice(), &by_href);
    let ghost lv = toc_labels(old(doc).toc@);
    assert(labels@.map_values(|s: String| s@) =~= lv);
    let mut chapters: Vec<Chapter> = Vec::new();
    let mut i: usize = 0;
    while i < n
        invariant
            0 <= i <= n,
            n == d0.spine.len(),
            n > 0,
            d0 == old(doc)@,
            n == old(doc).spine@.len(),
            doc@ == d0,
            hrefs@.len() == n,
            resolved@.len() == n,
            forall|j: int| 0 <= j < n ==> #[trigger] hrefs@[j]@ == d0.spine[j].href,
            forall|j: int| 0 <= j < n ==> #[trigger] resolved@[j]@ == spec_resolve_path(seq![], d0.spine[j].href),
            labels@.map_values(|s: String| s@) == lv,
            chapters@.len() == i,
            forall|j: int| 0 <= j < i ==> chapter_view(#[trigger] chapters@[j]) == spec_chapter(d0, lv, j),
        decreases n - i,
    {
        if cancelled(cancel) {
            return Err("Cancelled".to_owned());
        }
        let label = chapter_label(&labels, &resolved[i], i);
        let ghost key = resolved@[i as int]@;
        assert(labels@.contains_key(key) ==> lv[key] == labels@[key]@);
        let ch = match build_chapter(doc, hrefs[i].as_str(), label) {
            Ok(ch) => {
                if starts_with_exec(&chars_of(ch.label.as_str()), &['C', 'h', 'a', 'p', 't', 'e', 'r', ' ']) {
                    match first_heading_text(ch.html.as_str()) {
                        Some(t) => Chapter { label: t, href: ch.href, html: ch.html },
                        None => ch,
                    }
                } else {
                    ch
                }
            },
            Err(_) => Chapter {
                label: placeholder(i),
                href: hrefs[i].clone(),
                html: "[Error loading chapter]".to_owned(),
            },
        };
        proof {
            reveal_strlit("Chapter ");
            assert("Chapter "@ =~= seq!['C', 'h', 'a', 'p', 't', 'e', 'r', ' ']);
        }
        assert(chapter_view(ch) == spec_chapter(d0, lv, i as int));
        chapters.push(ch);
        i += 1;
    }
    Ok(LoadedBook { title, author, chapters, toc })
}

} // verus!
