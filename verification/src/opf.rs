//! The package files of an EPUB: `container.xml` (where the OPF file is)
//! and the OPF file (metadata, manifest, reading order).

use vstd::prelude::*;
use crate::text::{chars_of, same_str, split_words, string_of, trim, trim_chars, words};
use crate::types::{MetaView, Metadata, SpineItem, SpineView, opt_view, spine_views};
use crate::xml::{local_part, cooked_events, EventView, TagView, XmlEvent, XmlTag, attr_values, ends_in_error, find_tags, split_run, split_run_exec, is_terminal, read_events, stack_at, stack_views, step_stack, stop_from, stops, tags_at};

verus! {

pub open spec fn ev_views(s: Seq<XmlEvent>) -> Seq<EventView> {
    s.map_values(|e: XmlEvent| e@)
}

// ─── Attributes by local name ────────────────────────────────────────────

/// The unescaped value of the first attribute with the local name `name`:
/// `None` when there is none, `Some(None)` when its value could not be
/// unescaped.
pub open spec fn attr_named(values: Seq<(Seq<char>, Option<Seq<char>>)>, name: Seq<char>) -> Option<
    Option<Seq<char>>,
>
    decreases values.len(),
{
    if values.len() == 0 {
        None
    } else if local_part(values[0].0) == name {
        Some(values[0].1)
    } else {
        attr_named(values.drop_first(), name)
    }
}

/// A required attribute: present with a value.
pub open spec fn required(a: Option<Option<Seq<char>>>) -> Option<Seq<char>> {
    match a {
        Some(Some(v)) => Some(v),
        _ => None,
    }
}

/// An optional attribute: absent or present with a value.
pub open spec fn optional_ok(a: Option<Option<Seq<char>>>) -> bool {
    a != Some(None::<Seq<char>>)
}

pub open spec fn optional_value(a: Option<Option<Seq<char>>>) -> Option<Seq<char>> {
    match a {
        Some(Some(v)) => Some(v),
        _ => None,
    }
}

/// Looks up an attribute by local name.
fn attr_lookup(t: &XmlTag, name: &str) -> (r: Option<Option<String>>)
    ensures
        match r {
            None => attr_named(t@.values, name@) is None,
            Some(None) => attr_named(t@.values, name@) == Some(None::<Seq<char>>),
            Some(Some(s)) => attr_named(t@.values, name@) == Some(Some(s@)),
        },
{
    let ghost vs = t@.values;
    let n = chars_of(name);
    let mut k: usize = 0;
    assert(vs.skip(0) =~= vs);
    while k < t.attrs.len()
        invariant
            0 <= k <= t.attrs.len(),
            vs == attr_values(t.attrs@),
            n@ == name@,
            attr_named(vs.skip(k as int), name@) == attr_named(vs, name@),
        decreases t.attrs.len() - k,
    {
        assert(vs.skip(k as int).drop_first() =~= vs.skip(k + 1));
        assert(vs.skip(k as int)[0] == vs[k as int]);
        let l = crate::xml::local_part_exec(t.attrs[k].key.as_str());
        if same_str(l.as_str(), name) {
            return match &t.attrs[k].value {
                Some(v) => Some(Some(v.clone())),
                None => Some(None),
            };
        }
        k += 1;
    }
    assert(vs.skip(k as int) =~= Seq::<(Seq<char>, Option<Seq<char>>)>::empty());
    None
}

/// The tag of a start or empty-element event.
fn tag_ref(e: &XmlEvent) -> (r: Option<&XmlTag>)
    ensures
        r matches Some(t) ==> (e@ == EventView::Start(t@) || e@ == EventView::Empty(t@)),
        (e@ is Start || e@ is Empty) ==> r is Some,
{
    match e {
        XmlEvent::Start(t) => Some(t),
        XmlEvent::Empty(t) => Some(t),
        _ => None,
    }
}


pub open spec fn res_view(r: Result<String, String>) -> Result<Seq<char>, Seq<char>> {
    match r {
        Ok(s) => Ok(s@),
        Err(e) => Err(e@),
    }
}

/// Whether reading the events stopped at an error.
pub fn ends_in_error_exec(evs: &Vec<XmlEvent>) -> (b: bool)
    ensures
        b == ends_in_error(ev_views(evs@)),
{
    let ghost ev = ev_views(evs@);
    let mut i: usize = 0;
    while i < evs.len() && !stops(&evs[i])
        invariant
            0 <= i <= evs.len(),
            ev == ev_views(evs@),
            stop_from(ev, 0) == stop_from(ev, i as int),
        decreases evs.len() - i,
    {
        assert(ev[i as int] == evs@[i as int]@);
        i += 1;
    }
    if i < evs.len() {
        assert(ev[i as int] == evs@[i as int]@);
        match &evs[i] {
            XmlEvent::Error => true,
            _ => false,
        }
    } else {
        false
    }
}

// ─── container.xml ───────────────────────────────────────────────────────

/// The media type of an OPF package file.
pub open spec fn package_type() -> Seq<char> {
    "application/oebps-package+xml"@
}

/// The full path and media type of a `rootfile` element (both required).
pub open spec fn rootfile_entry(t: TagView) -> Option<(Seq<char>, Seq<char>)> {
    match (required(attr_named(t.values, "full-path"@)), required(attr_named(t.values, "media-type"@))) {
        (Some(f), Some(m)) => Some((f, m)),
        _ => None,
    }
}

/// The entries `f` makes of the `name` elements at the given event indexes;
/// `None` when `f` refuses one.
pub open spec fn entries<T>(evs: Seq<EventView>, idx: Seq<int>, name: Seq<char>, f: spec_fn(TagView) -> Option<T>) -> Option<Seq<T>>
    decreases idx.len(),
{
    if idx.len() == 0 {
        Some(seq![])
    } else {
        match (entries(evs, idx.drop_last(), name, f), f(crate::xml::tag_named(evs[idx.last()], name).unwrap())) {
            (Some(r), Some(e)) => Some(r.push(e)),
            _ => None,
        }
    }
}

/// The entries of the `rootfile` elements at the given event indexes.
pub open spec fn rootfile_list(evs: Seq<EventView>, idx: Seq<int>) -> Option<Seq<(Seq<char>, Seq<char>)>> {
    entries(evs, idx, "rootfile"@, |t: TagView| rootfile_entry(t))
}

/// The path of the first package rootfile from entry `i` on.
pub open spec fn first_package(rfs: Seq<(Seq<char>, Seq<char>)>, i: int) -> Option<Seq<char>>
    decreases rfs.len() - i,
{
    if i < 0 || i >= rfs.len() {
        None
    } else if rfs[i].1 == package_type() {
        Some(rfs[i].0)
    } else {
        first_package(rfs, i + 1)
    }
}

/// The OPF path among the rootfiles: the first of the package media type,
/// else the first of all.
pub open spec fn choose_rootfile(rfs: Seq<(Seq<char>, Seq<char>)>) -> Result<Seq<char>, Seq<char>> {
    match first_package(rfs, 0) {
        Some(p) => Ok(p),
        None => if rfs.len() > 0 {
            Ok(rfs[0].0)
        } else {
            Err("No rootfile found in container.xml"@)
        },
    }
}

/// What `container.xml`'s events give: the OPF path, or an error when the
/// XML is malformed, has no `rootfiles` element under the root or more than
/// one, has its `rootfile` elements apart (another child or text between
/// two of them), or has a `rootfile` without `full-path` or `media-type`.
pub open spec fn spec_parse_container(evs: Seq<EventView>) -> Result<Seq<char>, Seq<char>> {
    if ends_in_error(evs) || tags_at(evs, None, "rootfiles"@).len() != 1 || split_run(
        evs,
        Some("rootfiles"@),
        "rootfile"@,
    ) {
        Err("Error parsing container.xml"@)
    } else {
        match rootfile_list(evs, tags_at(evs, Some("rootfiles"@), "rootfile"@)) {
            None => Err("Error parsing container.xml"@),
            Some(rfs) => choose_rootfile(rfs),
        }
    }
}

/// Picks the OPF path among the rootfiles.
pub fn choose_rootfile_exec(rfs: &Vec<(String, String)>) -> (r: Result<String, String>)
    ensures
        res_view(r) == choose_rootfile(rfs@.map_values(|p: (String, String)| (p.0@, p.1@))),
{
    let ghost v = rfs@.map_values(|p: (String, String)| (p.0@, p.1@));
    let pkg = "application/oebps-package+xml".to_owned();
    let mut i: usize = 0;
    assert(first_package(v, 0) == first_package(v, 0));
    while i < rfs.len()
        invariant
            0 <= i <= rfs.len(),
            v == rfs@.map_values(|p: (String, String)| (p.0@, p.1@)),
            pkg@ == package_type(),
            first_package(v, i as int) == first_package(v, 0),
        decreases rfs.len() - i,
    {
        if rfs[i].1 == pkg {
            return Ok(rfs[i].0.clone());
        }
        i += 1;
    }
    if rfs.len() > 0 {
        Ok(rfs[0].0.clone())
    } else {
        Err("No rootfile found in container.xml".to_owned())
    }
}

/// The OPF path that `container.xml`'s events give.
pub fn container_from_events(evs: &Vec<XmlEvent>) -> (r: Result<String, String>)
    ensures
        res_view(r) == spec_parse_container(ev_views(evs@)),
{
    let ghost ev = ev_views(evs@);
    let bad = "Error parsing container.xml".to_owned();
    if ends_in_error_exec(evs) {
        return Err(bad);
    }
    let roots = find_tags(evs, None, "rootfiles");
    if roots.len() == 0 {
        assert(roots@.map_values(|i: usize| i as int).len() == 0);
        return Err(bad);
    }
    assert(roots@.map_values(|i: usize| i as int).len() == roots.len());
    if roots.len() > 1 || split_run_exec(evs, "rootfiles", "rootfile") {
        return Err(bad);
    }
    let idx = find_tags(evs, Some("rootfiles"), "rootfile");
    let ghost is = idx@.map_values(|i: usize| i as int);
    let mut rfs: Vec<(String, String)> = Vec::new();
    let mut k: usize = 0;
    assert(is.take(0) =~= Seq::<int>::empty());
    while k < idx.len()
        invariant
            0 <= k <= idx.len(),
            ev == ev_views(evs@),
            is == idx@.map_values(|i: usize| i as int),
            is == tags_at(ev, Some("rootfiles"@), "rootfile"@),
            rootfile_list(ev, is.take(k as int)) == Some(rfs@.map_values(|p: (String, String)| (p.0@, p.1@))),
            bad@ == "Error parsing container.xml"@,
        decreases idx.len() - k,
    {
        let j = idx[k];
        proof {
            assert(is[k as int] == j as int);
            lemma_tags_in_range(ev, Some("rootfiles"@), "rootfile"@, k as int);
            assert(is.take(k + 1).drop_last() =~= is.take(k as int));
        }
        assert(ev[j as int] == evs@[j as int]@);
        let t = match tag_ref(&evs[j]) {
            Some(t) => t,
            None => {
                return Err(bad);
            },
        };
        let f = attr_lookup(t, "full-path");
        let m = attr_lookup(t, "media-type");
        match (f, m) {
            (Some(Some(f)), Some(Some(m))) => {
                let ghost before = rfs@;
                rfs.push((f, m));
                assert(rfs@.map_values(|p: (String, String)| (p.0@, p.1@)) =~= before.map_values(
                    |p: (String, String)| (p.0@, p.1@),
                ).push((f@, m@)));
            },
            _ => {
                proof {
                    assert(crate::xml::tag_named(ev[j as int], "rootfile"@).unwrap() == t@);
                    assert(rootfile_list(ev, is.take(k + 1)) is None);
                    lemma_entries_prefix_none(ev, is, "rootfile"@, |t: TagView| rootfile_entry(t), k + 1);
                }
                return Err(bad);
            },
        }
        k += 1;
    }
    assert(is.take(k as int) =~= is);
    choose_rootfile_exec(&rfs)
}

/// Parses `container.xml` to find the OPF path.
pub fn parse_container(xml: &str) -> (r: Result<String, String>)
    ensures
        res_view(r) == spec_parse_container(cooked_events(xml@, false)),
{
    let evs = read_events(xml, false);
    container_from_events(&evs)
}

proof fn lemma_entries_prefix_none<T>(evs: Seq<EventView>, is: Seq<int>, name: Seq<char>, f: spec_fn(TagView) -> Option<T>, a: int)
    requires
        0 <= a <= is.len(),
        entries(evs, is.take(a), name, f) is None,
    ensures
        entries(evs, is, name, f) is None,
    decreases is.len() - a,
{
    if a == is.len() {
        assert(is.take(a) =~= is);
    } else {
        assert(is.take(a + 1).drop_last() =~= is.take(a));
        lemma_entries_prefix_none(evs, is, name, f, a + 1);
    }
}

/// The indexes found are events of the list, tags of the wanted name.
pub proof fn lemma_tags_in_range(evs: Seq<EventView>, parent: Option<Seq<char>>, name: Seq<char>, k: int)
    requires
        0 <= k < tags_at(evs, parent, name).len(),
    ensures
        0 <= tags_at(evs, parent, name)[k] < evs.len(),
        crate::xml::tag_named(evs[tags_at(evs, parent, name)[k]], name) is Some,
{
    lemma_stop_bound(evs, 0);
    lemma_matches_in_range(evs, stop_from(evs, 0), parent, name, k);
}

proof fn lemma_stop_bound(evs: Seq<EventView>, i: int)
    requires
        0 <= i,
    ensures
        stop_from(evs, i) <= evs.len(),
    decreases evs.len() - i,
{
    if i < evs.len() && !is_terminal(evs[i]) {
        lemma_stop_bound(evs, i + 1);
    }
}

proof fn lemma_matches_in_range(evs: Seq<EventView>, n: int, parent: Option<Seq<char>>, name: Seq<char>, k: int)
    requires
        n <= evs.len(),
        0 <= k < crate::xml::matches_upto(evs, n, parent, name).len(),
    ensures
        0 <= crate::xml::matches_upto(evs, n, parent, name)[k] < n,
        crate::xml::tag_named(evs[crate::xml::matches_upto(evs, n, parent, name)[k]], name) is Some,
    decreases n,
{
    if n > 0 {
        let r = crate::xml::matches_upto(evs, n - 1, parent, name);
        if k < r.len() {
            lemma_matches_in_range(evs, n - 1, parent, name, k);
        }
    }
}


// ─── The OPF manifest and spine ──────────────────────────────────────────

/// A manifest item.
pub struct ManifestItem {
    pub id: String,
    pub href: String,
    pub media_type: Option<String>,
    pub properties: Option<String>,
}

/// What a manifest item holds.
pub struct ManifestView {
    pub id: Seq<char>,
    pub href: Seq<char>,
    pub media_type: Option<Seq<char>>,
    pub properties: Option<Seq<char>>,
}

impl View for ManifestItem {
    type V = ManifestView;

    open spec fn view(&self) -> ManifestView {
        ManifestView {
            id: self.id@,
            href: self.href@,
            media_type: opt_view(self.media_type),
            properties: opt_view(self.properties),
        }
    }
}

pub open spec fn manifest_views(v: Seq<ManifestItem>) -> Seq<ManifestView> {
    v.map_values(|m: ManifestItem| m@)
}

/// A manifest `item` element: `id` and `href` required, `media-type` and
/// `properties` optional.
pub open spec fn manifest_entry(t: TagView) -> Option<ManifestView> {
    let id = attr_named(t.values, "id"@);
    let href = attr_named(t.values, "href"@);
    let mt = attr_named(t.values, "media-type"@);
    let pr = attr_named(t.values, "properties"@);
    if required(id) is Some && required(href) is Some && optional_ok(mt) && optional_ok(pr) {
        Some(
            ManifestView {
                id: required(id).unwrap(),
                href: required(href).unwrap(),
                media_type: optional_value(mt),
                properties: optional_value(pr),
            },
        )
    } else {
        None
    }
}

/// A spine `itemref` element: `idref` required.
pub open spec fn itemref_entry(t: TagView) -> Option<Seq<char>> {
    required(attr_named(t.values, "idref"@))
}

/// The manifest items of an OPF file's events (`item` children of a
/// `manifest` child of the root).
pub open spec fn spec_manifest(evs: Seq<EventView>) -> Option<Seq<ManifestView>> {
    entries(evs, tags_at(evs, Some("manifest"@), "item"@), "item"@, |t: TagView| manifest_entry(t))
}

/// The `idref`s of an OPF file's spine (`itemref` children of a `spine`
/// child of the root).
pub open spec fn spec_itemrefs(evs: Seq<EventView>) -> Option<Seq<Seq<char>>> {
    entries(evs, tags_at(evs, Some("spine"@), "itemref"@), "itemref"@, |t: TagView| itemref_entry(t))
}

/// The sections of a package are each there at most once, and the items
/// of each come in one run (no other child or text between two of them).
pub open spec fn package_shape(evs: Seq<EventView>) -> bool {
    &&& tags_at(evs, None, "manifest"@).len() <= 1
    &&& tags_at(evs, None, "spine"@).len() <= 1
    &&& !split_run(evs, Some("manifest"@), "item"@)
    &&& !split_run(evs, Some("spine"@), "itemref"@)
}

/// Whether an OPF file's events make a package: well-formed, shaped as
/// `package_shape` says, with every manifest item and spine itemref carrying
/// its required attributes.
pub open spec fn package_ok(evs: Seq<EventView>) -> bool {
    !ends_in_error(evs) && package_shape(evs) && spec_manifest(evs) is Some && spec_itemrefs(evs) is Some
}

/// Whether an OPF file's events are shaped as `package_shape` says.
fn package_shape_exec(evs: &Vec<XmlEvent>) -> (b: bool)
    ensures
        b == package_shape(ev_views(evs@)),
{
    let m = find_tags(evs, None, "manifest");
    let s = find_tags(evs, None, "spine");
    assert(m@.map_values(|i: usize| i as int).len() == m.len());
    assert(s@.map_values(|i: usize| i as int).len() == s.len());
    m.len() <= 1 && s.len() <= 1 && !split_run_exec(evs, "manifest", "item") && !split_run_exec(
        evs,
        "spine",
        "itemref",
    )
}

fn manifest_item_exec(t: &XmlTag) -> (r: Option<ManifestItem>)
    ensures
        match r {
            Some(m) => manifest_entry(t@) == Some(m@),
            None => manifest_entry(t@) is None,
        },
{
    let id = attr_lookup(t, "id");
    let href = attr_lookup(t, "href");
    let mt = attr_lookup(t, "media-type");
    let pr = attr_lookup(t, "properties");
    let (id, href) = match (id, href) {
        (Some(Some(i)), Some(Some(h))) => (i, h),
        _ => {
            return None;
        },
    };
    let media_type = match mt {
        Some(None) => {
            return None;
        },
        Some(Some(v)) => Some(v),
        None => None,
    };
    let properties = match pr {
        Some(None) => {
            return None;
        },
        Some(Some(v)) => Some(v),
        None => None,
    };
    Some(ManifestItem { id, href, media_type, properties })
}

fn itemref_exec(t: &XmlTag) -> (r: Option<String>)
    ensures
        match r {
            Some(s) => itemref_entry(t@) == Some(s@),
            None => itemref_entry(t@) is None,
        },
{
    match attr_lookup(t, "idref") {
        Some(Some(v)) => Some(v),
        _ => None,
    }
}

/// The manifest items of an OPF file's events; `None` when one lacks a
/// required attribute.
pub fn manifest_from_events(evs: &Vec<XmlEvent>) -> (r: Option<Vec<ManifestItem>>)
    ensures
        match r {
            Some(v) => spec_manifest(ev_views(evs@)) == Some(manifest_views(v@)),
            None => spec_manifest(ev_views(evs@)) is None,
        },
{
    let ghost ev = ev_views(evs@);
    let ghost f = |t: TagView| manifest_entry(t);
    let idx = find_tags(evs, Some("manifest"), "item");
    let ghost is = idx@.map_values(|i: usize| i as int);
    let mut out: Vec<ManifestItem> = Vec::new();
    let mut k: usize = 0;
    assert(is.take(0) =~= Seq::<int>::empty());
    assert(manifest_views(out@) =~= Seq::<ManifestView>::empty());
    while k < idx.len()
        invariant
            0 <= k <= idx.len(),
            ev == ev_views(evs@),
            f == (|t: TagView| manifest_entry(t)),
            is == idx@.map_values(|i: usize| i as int),
            is == tags_at(ev, Some("manifest"@), "item"@),
            entries(ev, is.take(k as int), "item"@, f) == Some(manifest_views(out@)),
        decreases idx.len() - k,
    {
        let j = idx[k];
        proof {
            assert(is[k as int] == j as int);
            lemma_tags_in_range(ev, Some("manifest"@), "item"@, k as int);
            assert(is.take(k + 1).drop_last() =~= is.take(k as int));
        }
        assert(ev[j as int] == evs@[j as int]@);
        let t = match tag_ref(&evs[j]) {
            Some(t) => t,
            None => {
                return None;
            },
        };
        assert(crate::xml::tag_named(ev[j as int], "item"@).unwrap() == t@);
        match manifest_item_exec(t) {
            Some(m) => {
                let ghost before = out@;
                out.push(m);
                assert(manifest_views(out@) =~= manifest_views(before).push(m@));
            },
            None => {
                proof {
                    lemma_entries_prefix_none(ev, is, "item"@, f, k + 1);
                }
                return None;
            },
        }
        k += 1;
    }
    assert(is.take(k as int) =~= is);
    Some(out)
}

/// The spine `idref`s of an OPF file's events; `None` when one lacks it.
pub fn itemrefs_from_events(evs: &Vec<XmlEvent>) -> (r: Option<Vec<String>>)
    ensures
        match r {
            Some(v) => spec_itemrefs(ev_views(evs@)) == Some(stack_views(v@)),
            None => spec_itemrefs(ev_views(evs@)) is None,
        },
{
    let ghost ev = ev_views(evs@);
    let ghost f = |t: TagView| itemref_entry(t);
    let idx = find_tags(evs, Some("spine"), "itemref");
    let ghost is = idx@.map_values(|i: usize| i as int);
    let mut out: Vec<String> = Vec::new();
    let mut k: usize = 0;
    assert(is.take(0) =~= Seq::<int>::empty());
    assert(stack_views(out@) =~= Seq::<Seq<char>>::empty());
    while k < idx.len()
        invariant
            0 <= k <= idx.len(),
            ev == ev_views(evs@),
            f == (|t: TagView| itemref_entry(t)),
            is == idx@.map_values(|i: usize| i as int),
            is == tags_at(ev, Some("spine"@), "itemref"@),
            entries(ev, is.take(k as int), "itemref"@, f) == Some(stack_views(out@)),
        decreases idx.len() - k,
    {
        let j = idx[k];
        proof {
            assert(is[k as int] == j as int);
            lemma_tags_in_range(ev, Some("spine"@), "itemref"@, k as int);
            assert(is.take(k + 1).drop_last() =~= is.take(k as int));
        }
        assert(ev[j as int] == evs@[j as int]@);
        let t = match tag_ref(&evs[j]) {
            Some(t) => t,
            None => {
                return None;
            },
        };
        assert(crate::xml::tag_named(ev[j as int], "itemref"@).unwrap() == t@);
        match itemref_exec(t) {
            Some(m) => {
                let ghost before = out@;
                out.push(m);
                assert(stack_views(out@) =~= stack_views(before).push(m@));
            },
            None => {
                proof {
                    lemma_entries_prefix_none(ev, is, "itemref"@, f, k + 1);
                }
                return None;
            },
        }
        k += 1;
    }
    assert(is.take(k as int) =~= is);
    Some(out)
}

/// The last manifest item with the id `id` (a later item replaces an
/// earlier one with the same id).
pub open spec fn last_with_id(items: Seq<ManifestView>, id: Seq<char>) -> Option<ManifestView>
    decreases items.len(),
{
    if items.len() == 0 {
        None
    } else if items.last().id == id {
        Some(items.last())
    } else {
        last_with_id(items.drop_last(), id)
    }
}

/// The reading order: each `idref` that names a manifest item, with that
/// item's target and media type.
pub open spec fn spec_spine(items: Seq<ManifestView>, idrefs: Seq<Seq<char>>) -> Seq<SpineView>
    decreases idrefs.len(),
{
    if idrefs.len() == 0 {
        seq![]
    } else {
        let r = spec_spine(items, idrefs.drop_last());
        match last_with_id(items, idrefs.last()) {
            Some(m) => r.push(SpineView { id: idrefs.last(), href: m.href, media_type: m.media_type }),
            None => r,
        }
    }
}

fn last_with_id_exec(items: &Vec<ManifestItem>, id: &String) -> (r: Option<usize>)
    ensures
        match r {
            Some(k) => k < items.len() && last_with_id(manifest_views(items@), id@) == Some(items@[k as int]@),
            None => last_with_id(manifest_views(items@), id@) is None,
        },
{
    let ghost mv = manifest_views(items@);
    let mut n = items.len();
    assert(mv.take(n as int) =~= mv);
    while n > 0
        invariant
            n <= items.len(),
            mv == manifest_views(items@),
            last_with_id(mv.take(n as int), id@) == last_with_id(mv, id@),
        decreases n,
    {
        assert(mv.take(n as int).drop_last() =~= mv.take(n - 1));
        if items[n - 1].id == *id {
            return Some(n - 1);
        }
        n -= 1;
    }
    None
}

/// Builds the reading order from the manifest and the spine's `idref`s.
pub fn build_spine(items: &Vec<ManifestItem>, idrefs: &Vec<String>) -> (r: Vec<SpineItem>)
    ensures
        spine_views(r@) == spec_spine(manifest_views(items@), stack_views(idrefs@)),
{
    let ghost mv = manifest_views(items@);
    let ghost rv = stack_views(idrefs@);
    let mut out: Vec<SpineItem> = Vec::new();
    let mut k: usize = 0;
    assert(rv.take(0) =~= Seq::<Seq<char>>::empty());
    assert(spine_views(out@) =~= Seq::<SpineView>::empty());
    while k < idrefs.len()
        invariant
            0 <= k <= idrefs.len(),
            mv == manifest_views(items@),
            rv == stack_views(idrefs@),
            spine_views(out@) == spec_spine(mv, rv.take(k as int)),
        decreases idrefs.len() - k,
    {
        assert(rv.take(k + 1).drop_last() =~= rv.take(k as int));
        assert(rv.take(k + 1).last() == idrefs@[k as int]@);
        match last_with_id_exec(items, &idrefs[k]) {
            Some(j) => {
                let m = &items[j];
                let mt = crate::types::copy_opt(&m.media_type);
                let it = SpineItem { id: idrefs[k].clone(), href: m.href.clone(), media_type: mt };
                let ghost before = out@;
                out.push(it);
                assert(spine_views(out@) =~= spine_views(before).push(it@));
            },
            None => {},
        }
        k += 1;
    }
    assert(rv.take(k as int) =~= rv);
    out
}

// ─── OPF metadata ────────────────────────────────────────────────────────

/// Metadata with nothing in it.
pub open spec fn empty_meta() -> MetaView {
    MetaView { title: seq![], creator: None, language: None, publisher: None, date: None, description: None }
}

/// Takes the trimmed text of a metadata element named `name`, keeping the
/// first non-empty value of each field.
pub open spec fn capture(m: MetaView, name: Seq<char>, text: Seq<char>) -> MetaView {
    let t = trim(text);
    if t.len() == 0 {
        m
    } else if name == "title"@ && m.title.len() == 0 {
        MetaView { title: t, ..m }
    } else if name == "creator"@ && m.creator is None {
        MetaView { creator: Some(t), ..m }
    } else if name == "language"@ && m.language is None {
        MetaView { language: Some(t), ..m }
    } else if name == "publisher"@ && m.publisher is None {
        MetaView { publisher: Some(t), ..m }
    } else if name == "date"@ && m.date is None {
        MetaView { date: Some(t), ..m }
    } else if name == "description"@ && m.description is None {
        MetaView { description: Some(t), ..m }
    } else {
        m
    }
}

/// The metadata read from event `i` on: text directly inside a child of a
/// `metadata` element is captured under that child's local name.
pub open spec fn meta_run(evs: Seq<EventView>, i: int, m: MetaView) -> MetaView
    decreases evs.len() - i,
{
    if i < 0 || i >= evs.len() || is_terminal(evs[i]) {
        m
    } else {
        let m2 = match evs[i] {
            EventView::Text(Some(txt)) => {
                let s = stack_at(evs, i);
                if s.len() >= 2 && s[s.len() - 2] == "metadata"@ {
                    capture(m, s.last(), txt)
                } else {
                    m
                }
            },
            _ => m,
        };
        meta_run(evs, i + 1, m2)
    }
}

/// The metadata of an OPF file's events; `None` when the XML is malformed.
pub open spec fn spec_parse_metadata(evs: Seq<EventView>) -> Option<MetaView> {
    if ends_in_error(evs) {
        None
    } else {
        Some(meta_run(evs, 0, empty_meta()))
    }
}

fn capture_exec(out: &mut Metadata, name: &String, text: &String)
    ensures
        final(out)@ == capture(old(out)@, name@, text@),
{
    let t = string_of(&trim_chars(&chars_of(text.as_str())));
    if chars_of(t.as_str()).len() == 0 {
        return;
    }
    let n = name.as_str();
    if same_str(n, "title") && chars_of(out.title.as_str()).len() == 0 {
        out.title = t;
    } else if same_str(n, "creator") && out.creator.is_none() {
        out.creator = Some(t);
    } else if same_str(n, "language") && out.language.is_none() {
        out.language = Some(t);
    } else if same_str(n, "publisher") && out.publisher.is_none() {
        out.publisher = Some(t);
    } else if same_str(n, "date") && out.date.is_none() {
        out.date = Some(t);
    } else if same_str(n, "description") && out.description.is_none() {
        out.description = Some(t);
    }
}

/// The metadata of an OPF file's events: the first value of each wanted
/// element that is a child of `metadata`, matched by local name.
pub fn metadata_from_events(evs: &Vec<XmlEvent>) -> (r: Result<Metadata, String>)
    ensures
        match r {
            Ok(m) => spec_parse_metadata(ev_views(evs@)) == Some(m@),
            Err(e) => spec_parse_metadata(ev_views(evs@)) is None && e@ == "Error parsing OPF metadata"@,
        },
{
    let ghost ev = ev_views(evs@);
    let mut out = Metadata::empty();
    let mut stack: Vec<String> = Vec::new();
    let mut i: usize = 0;
    assert(stack_views(stack@) =~= Seq::<Seq<char>>::empty());
    while i < evs.len() && !stops(&evs[i])
        invariant
            0 <= i <= evs.len(),
            ev == ev_views(evs@),
            stop_from(ev, 0) == stop_from(ev, i as int),
            stack_views(stack@) == stack_at(ev, i as int),
            meta_run(ev, i as int, out@) == meta_run(ev, 0, empty_meta()),
        decreases evs.len() - i,
    {
        assert(ev[i as int] == evs@[i as int]@);
        let ghost m0 = out@;
        match &evs[i] {
            XmlEvent::Text(Some(txt)) => {
                let n = stack.len();
                if n >= 2 && stack[n - 2] == "metadata".to_owned() {
                    proof {
                        assert(stack_views(stack@)[n - 2] == stack@[n - 2]@);
                        assert(stack_views(stack@)[n - 1] == stack@[n - 1]@);
                    }
                    capture_exec(&mut out, &stack[n - 1], txt);
                } else {
                    proof {
                        if n >= 2 {
                            assert(stack_views(stack@)[n - 2] == stack@[n - 2]@);
                        }
                    }
                }
            },
            _ => {},
        }
        step_stack(&mut stack, &evs[i]);
        i += 1;
    }
    proof {
        assert(stop_from(ev, i as int) == i);
    }
    if i < evs.len() {
        assert(ev[i as int] == evs@[i as int]@);
        match &evs[i] {
            XmlEvent::Error => {
                return Err("Error parsing OPF metadata".to_owned());
            },
            _ => {},
        }
    }
    Ok(out)
}

/// Reads the metadata of an OPF file.
pub fn parse_metadata(xml: &str) -> (r: Result<Metadata, String>)
    ensures
        match r {
            Ok(m) => spec_parse_metadata(cooked_events(xml@, false)) == Some(m@),
            Err(e) => spec_parse_metadata(cooked_events(xml@, false)) is None && e@
                == "Error parsing OPF metadata"@,
        },
{
    let evs = read_events(xml, false);
    metadata_from_events(&evs)
}

// ─── The whole OPF file ──────────────────────────────────────────────────

/// What an OPF file's events give: its metadata and reading order.
pub open spec fn spec_parse_opf(evs: Seq<EventView>) -> Result<(MetaView, Seq<SpineView>), Seq<char>> {
    if !package_ok(evs) {
        Err("Error parsing OPF file"@)
    } else {
        match spec_parse_metadata(evs) {
            None => Err("Error parsing OPF metadata"@),
            Some(m) => Ok((m, spec_spine(spec_manifest(evs).unwrap(), spec_itemrefs(evs).unwrap()))),
        }
    }
}

pub open spec fn opf_view(r: Result<(Metadata, Vec<SpineItem>), String>) -> Result<(MetaView, Seq<SpineView>), Seq<char>> {
    match r {
        Ok((m, s)) => Ok((m@, spine_views(s@))),
        Err(e) => Err(e@),
    }
}

/// The metadata and reading order of an OPF file's events.
pub fn opf_from_events(evs: &Vec<XmlEvent>) -> (r: Result<(Metadata, Vec<SpineItem>), String>)
    ensures
        opf_view(r) == spec_parse_opf(ev_views(evs@)),
{
    let bad = "Error parsing OPF file".to_owned();
    if ends_in_error_exec(evs) || !package_shape_exec(evs) {
        return Err(bad);
    }
    let items = match manifest_from_events(evs) {
        Some(v) => v,
        None => {
            return Err(bad);
        },
    };
    let refs = match itemrefs_from_events(evs) {
        Some(v) => v,
        None => {
            return Err(bad);
        },
    };
    let metadata = match metadata_from_events(evs) {
        Ok(m) => m,
        Err(e) => {
            return Err(e);
        },
    };
    let spine = build_spine(&items, &refs);
    Ok((metadata, spine))
}

/// Parses an OPF file into its metadata and reading order.
pub fn parse_opf(xml: &str) -> (r: Result<(Metadata, Vec<SpineItem>), String>)
    ensures
        opf_view(r) == spec_parse_opf(cooked_events(xml@, false)),
{
    let evs = read_events(xml, false);
    opf_from_events(&evs)
}

/// The target of the first manifest item of media type `mt`.
pub open spec fn first_of_type(items: Seq<ManifestView>, mt: Seq<char>) -> Option<Seq<char>>
    decreases items.len(),
{
    if items.len() == 0 {
        None
    } else if items[0].media_type == Some(mt) {
        Some(items[0].href)
    } else {
        first_of_type(items.drop_first(), mt)
    }
}

/// The target of the first manifest item whose `properties` include `nav`.
pub open spec fn first_nav(items: Seq<ManifestView>) -> Option<Seq<char>>
    decreases items.len(),
{
    if items.len() == 0 {
        None
    } else if items[0].properties matches Some(p) && words(p).contains("nav"@) {
        Some(items[0].href)
    } else {
        first_nav(items.drop_first())
    }
}

/// The NCX file named by an OPF file's events.
pub open spec fn spec_ncx_href(evs: Seq<EventView>) -> Option<Seq<char>> {
    if package_ok(evs) {
        first_of_type(spec_manifest(evs).unwrap(), "application/x-dtbncx+xml"@)
    } else {
        None
    }
}

/// The navigation document named by an OPF file's events.
pub open spec fn spec_nav_href(evs: Seq<EventView>) -> Option<Seq<char>> {
    if package_ok(evs) {
        first_nav(spec_manifest(evs).unwrap())
    } else {
        None
    }
}

/// Whether the words of `s` include `w`.
fn has_word(s: &String, w: &str) -> (b: bool)
    ensures
        b == words(s@).contains(w@),
{
    let ws = split_words(&chars_of(s.as_str()));
    let mut m: usize = 0;
    while m < ws.len()
        invariant
            0 <= m <= ws.len(),
            crate::text::views(ws@) == words(s@),
            forall|j: int| 0 <= j < m ==> ws@[j]@ != w@,
        decreases ws.len() - m,
    {
        let x = string_of(&ws[m]);
        if same_str(x.as_str(), w) {
            assert(crate::text::views(ws@)[m as int] == ws@[m as int]@);
            return true;
        }
        m += 1;
    }
    proof {
        if words(s@).contains(w@) {
            let j = choose|j: int| 0 <= j < words(s@).len() && words(s@)[j] == w@;
            assert(crate::text::views(ws@)[j] == ws@[j]@);
        }
    }
    false
}

/// Finds the NCX file path in the events of an OPF file.
pub fn ncx_href_from_events(evs: &Vec<XmlEvent>) -> (r: Option<String>)
    ensures
        crate::types::opt_view(r) == spec_ncx_href(ev_views(evs@)),
{
    if ends_in_error_exec(evs) || !package_shape_exec(evs) {
        return None;
    }
    let items = match manifest_from_events(evs) {
        Some(v) => v,
        None => {
            return None;
        },
    };
    if itemrefs_from_events(evs).is_none() {
        return None;
    }
    let ghost mv = manifest_views(items@);
    let want = "application/x-dtbncx+xml".to_owned();
    let mut k: usize = 0;
    assert(mv.skip(0) =~= mv);
    while k < items.len()
        invariant
            0 <= k <= items.len(),
            mv == manifest_views(items@),
            want@ == "application/x-dtbncx+xml"@,
            spec_ncx_href(ev_views(evs@)) == first_of_type(mv, want@),
            first_of_type(mv.skip(k as int), want@) == first_of_type(mv, want@),
        decreases items.len() - k,
    {
        assert(mv.skip(k as int).drop_first() =~= mv.skip(k + 1));
        assert(mv.skip(k as int)[0] == items@[k as int]@);
        let hit = match &items[k].media_type {
            Some(t) => *t == want,
            None => false,
        };
        if hit {
            return Some(items[k].href.clone());
        }
        k += 1;
    }
    assert(mv.skip(k as int) =~= Seq::<ManifestView>::empty());
    None
}

/// Finds the EPUB3 navigation document (the item with the `nav` property)
/// in the events of an OPF file.
pub fn nav_href_from_events(evs: &Vec<XmlEvent>) -> (r: Option<String>)
    ensures
        crate::types::opt_view(r) == spec_nav_href(ev_views(evs@)),
{
    if ends_in_error_exec(evs) || !package_shape_exec(evs) {
        return None;
    }
    let items = match manifest_from_events(evs) {
        Some(v) => v,
        None => {
            return None;
        },
    };
    if itemrefs_from_events(evs).is_none() {
        return None;
    }
    let ghost mv = manifest_views(items@);
    let mut k: usize = 0;
    assert(mv.skip(0) =~= mv);
    while k < items.len()
        invariant
            0 <= k <= items.len(),
            mv == manifest_views(items@),
            spec_nav_href(ev_views(evs@)) == first_nav(mv),
            first_nav(mv.skip(k as int)) == first_nav(mv),
        decreases items.len() - k,
    {
        assert(mv.skip(k as int).drop_first() =~= mv.skip(k + 1));
        assert(mv.skip(k as int)[0] == items@[k as int]@);
        let hit = match &items[k].properties {
            Some(p) => has_word(p, "nav"),
            None => false,
        };
        if hit {
            return Some(items[k].href.clone());
        }
        k += 1;
    }
    assert(mv.skip(k as int) =~= Seq::<ManifestView>::empty());
    None
}

/// Finds the NCX file path in an OPF file's manifest.
pub fn find_ncx_href(opf: &str) -> (r: Option<String>)
    ensures
        crate::types::opt_view(r) == spec_ncx_href(cooked_events(opf@, false)),
{
    let evs = read_events(opf, false);
    ncx_href_from_events(&evs)
}

/// Finds the EPUB3 navigation document in an OPF file's manifest.
pub fn find_nav_href(opf: &str) -> (r: Option<String>)
    ensures
        crate::types::opt_view(r) == spec_nav_href(cooked_events(opf@, false)),
{
    let evs = read_events(opf, false);
    nav_href_from_events(&evs)
}

} // verus!
