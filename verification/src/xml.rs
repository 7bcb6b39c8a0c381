//! XML events as plain values, read one at a time from a `quick_xml`
//! reader.

use vstd::prelude::*;
use quick_xml::events::{BytesStart, Event};
use quick_xml::Reader;
use vstd::utf8::{decode_utf8, valid_utf8};
use crate::paths::{from_utf8_lossy, utf8_lossy};
use crate::text::{chars_of, find_char, find_char_exec, string_of, string_of_range};

verus! {

/// An attribute: its qualified key and raw value, decoded leniently from
/// UTF-8, and its unescaped value (`None` where unescaping failed).
pub struct XmlAttr {
    pub key: String,
    pub raw: String,
    pub value: Option<String>,
}

/// A start or empty-element tag: its qualified name and local name, decoded
/// leniently from UTF-8, and its attributes.
pub struct XmlTag {
    pub name: String,
    pub local: String,
    pub attrs: Vec<XmlAttr>,
}

/// One event of an XML document.
pub enum XmlEvent {
    Start(XmlTag),
    Empty(XmlTag),
    /// An end tag: qualified and local name.
    End(String, String),
    /// Character data, unescaped (`None` where unescaping failed).
    Text(Option<String>),
    Eof,
    Error,
    /// Anything else (comments, CDATA, declarations, ...).
    Other,
}

/// What a tag holds.
pub struct TagView {
    pub name: Seq<char>,
    pub local: Seq<char>,
    /// Key and raw value of each attribute.
    pub attrs: Seq<(Seq<char>, Seq<char>)>,
    /// Key and unescaped value of each attribute.
    pub values: Seq<(Seq<char>, Option<Seq<char>>)>,
}

/// What an event holds.
pub enum EventView {
    Start(TagView),
    Empty(TagView),
    End(Seq<char>, Seq<char>),
    Text(Option<Seq<char>>),
    Eof,
    Error,
    Other,
}

pub open spec fn opt_chars(o: Option<String>) -> Option<Seq<char>> {
    match o {
        Some(s) => Some(s@),
        None => None,
    }
}

pub open spec fn attr_views(a: Seq<XmlAttr>) -> Seq<(Seq<char>, Seq<char>)> {
    a.map_values(|p: XmlAttr| (p.key@, p.raw@))
}

pub open spec fn attr_values(a: Seq<XmlAttr>) -> Seq<(Seq<char>, Option<Seq<char>>)> {
    a.map_values(|p: XmlAttr| (p.key@, opt_chars(p.value)))
}

impl View for XmlTag {
    type V = TagView;

    open spec fn view(&self) -> TagView {
        TagView {
            name: self.name@,
            local: self.local@,
            attrs: attr_views(self.attrs@),
            values: attr_values(self.attrs@),
        }
    }
}

impl View for XmlEvent {
    type V = EventView;

    open spec fn view(&self) -> EventView {
        match self {
            XmlEvent::Start(t) => EventView::Start(t@),
            XmlEvent::Empty(t) => EventView::Empty(t@),
            XmlEvent::End(n, l) => EventView::End(n@, l@),
            XmlEvent::Text(t) => EventView::Text(
                match t {
                    Some(s) => Some(s@),
                    None => None,
                },
            ),
            XmlEvent::Eof => EventView::Eof,
            XmlEvent::Error => EventView::Error,
            XmlEvent::Other => EventView::Other,
        }
    }
}

/// The end of the document or an error: reading stops there.
pub open spec fn is_terminal(e: EventView) -> bool {
    e is Eof || e is Error
}

/// One event as `quick_xml` reads it: tags with their raw name and raw
/// attributes (key and value bytes), text already unescaped.
pub enum RawEvent {
    Start((Vec<u8>, Vec<(Vec<u8>, Vec<u8>)>)),
    Empty((Vec<u8>, Vec<(Vec<u8>, Vec<u8>)>)),
    End(Vec<u8>),
    Text(Option<String>),
    Eof,
    Error,
    Other,
}

/// What a raw event holds.
pub enum RawView {
    Start(Seq<u8>, Seq<(Seq<u8>, Seq<u8>)>),
    Empty(Seq<u8>, Seq<(Seq<u8>, Seq<u8>)>),
    End(Seq<u8>),
    Text(Option<Seq<char>>),
    Eof,
    Error,
    Other,
}

pub open spec fn byte_pairs(a: Seq<(Vec<u8>, Vec<u8>)>) -> Seq<(Seq<u8>, Seq<u8>)> {
    a.map_values(|p: (Vec<u8>, Vec<u8>)| (p.0@, p.1@))
}

impl View for RawEvent {
    type V = RawView;

    open spec fn view(&self) -> RawView {
        match self {
            RawEvent::Start(t) => RawView::Start(t.0@, byte_pairs(t.1@)),
            RawEvent::Empty(t) => RawView::Empty(t.0@, byte_pairs(t.1@)),
            RawEvent::End(n) => RawView::End(n@),
            RawEvent::Text(t) => RawView::Text(opt_chars(*t)),
            RawEvent::Eof => RawView::Eof,
            RawEvent::Error => RawView::Error,
            RawEvent::Other => RawView::Other,
        }
    }
}

/// A name without its namespace prefix (what follows the first `:`).
pub open spec fn local_part(k: Seq<char>) -> Seq<char> {
    let p = find_char(k, ':', 0);
    if p < k.len() {
        k.skip(p + 1)
    } else {
        k
    }
}

/// What `quick_xml::escape::unescape` makes of an attribute value's bytes
/// (`None` where they are not UTF-8 or hold a bad escape).
pub uninterp spec fn xml_unescaped(raw: Seq<u8>) -> Option<Seq<char>>;

/// An attribute value decoded as UTF-8 and unescaped, as
/// `Attribute::unescape_value` does. The contract names the result, states
/// that bytes that are not UTF-8 give none (the decoding is `from_utf8`),
/// and what the documentation gives for text without `&`: it is unchanged.
#[verifier::external_body]
fn unescape_value(raw: &[u8]) -> (r: Option<String>)
    ensures
        opt_chars(r) == xml_unescaped(raw@),
        !valid_utf8(raw@) ==> r is None,
        valid_utf8(raw@) && !decode_utf8(raw@).contains('&') ==> opt_chars(r) == Some(decode_utf8(raw@)),
{
    match std::str::from_utf8(raw) {
        Ok(s) => quick_xml::escape::unescape(s).ok().map(String::from),
        Err(_) => None,
    }
}

/// A tag as the parsers see it.
pub open spec fn cook_tag(name: Seq<u8>, attrs: Seq<(Seq<u8>, Seq<u8>)>) -> TagView {
    TagView {
        name: utf8_lossy(name),
        local: local_part(utf8_lossy(name)),
        attrs: attrs.map_values(|a: (Seq<u8>, Seq<u8>)| (utf8_lossy(a.0), utf8_lossy(a.1))),
        values: attrs.map_values(|a: (Seq<u8>, Seq<u8>)| (utf8_lossy(a.0), xml_unescaped(a.1))),
    }
}

/// An event as the parsers see it: names and raw values decoded leniently
/// from UTF-8, attribute values also unescaped.
pub open spec fn cook(e: RawView) -> EventView {
    match e {
        RawView::Start(n, a) => EventView::Start(cook_tag(n, a)),
        RawView::Empty(n, a) => EventView::Empty(cook_tag(n, a)),
        RawView::End(n) => EventView::End(utf8_lossy(n), local_part(utf8_lossy(n))),
        RawView::Text(t) => EventView::Text(t),
        RawView::Eof => EventView::Eof,
        RawView::Error => EventView::Error,
        RawView::Other => EventView::Other,
    }
}

/// The end of the document or an error: reading stops there.
pub open spec fn is_raw_terminal(e: RawView) -> bool {
    e is Eof || e is Error
}

/// A sequence of events that ends at its first terminal event.
pub open spec fn is_event_stream(s: Seq<RawView>) -> bool {
    &&& s.len() > 0
    &&& is_raw_terminal(s.last())
    &&& forall|i: int| 0 <= i < s.len() - 1 ==> !is_raw_terminal(#[trigger] s[i])
}

#[verifier::external_type_specification]
#[verifier::external_body]
#[verifier::reject_recursive_types(R)]
pub struct ExXmlReader<R>(Reader<R>);

/// The events that `quick_xml` reads from `xml` (with text trimmed when
/// `trim`), up to and including the end of the document or the first error.
pub uninterp spec fn xml_events(xml: Seq<char>, trim: bool) -> Seq<RawView>;

/// The events a reader has still to give, up to and including the end of the
/// document or the first error.
pub uninterp spec fn pending_events(r: Reader<&[u8]>) -> Seq<RawView>;

/// The events of `xml` as the parsers see them.
pub open spec fn cooked_events(xml: Seq<char>, trim: bool) -> Seq<EventView> {
    xml_events(xml, trim).map_values(|e: RawView| cook(e))
}

/// `quick_xml::Reader::from_str`, with `trim_text` set to `trim`. The reader
/// is to give the events named `xml_events(xml, trim)`; the contract also
/// states that those end at the end of the document or at an error, after
/// finitely many events.
#[verifier::external_body]
pub(crate) fn reader_from_str<'a>(xml: &'a str, trim: bool) -> (r: Reader<&'a [u8]>)
    ensures
        pending_events(r) == xml_events(xml@, trim),
        is_event_stream(pending_events(r)),
{
    let mut r = Reader::from_str(xml);
    r.config_mut().trim_text(trim);
    r
}

/// `quick_xml::Reader::read_event`, converted to plain values: the raw name
/// and raw attributes of a tag (attributes that fail to parse are skipped),
/// the unescaped text of character data. The contract states that the event
/// is the next pending one and that it is consumed.
#[verifier::external_body]
pub(crate) fn next_event(reader: &mut Reader<&[u8]>) -> (e: RawEvent)
    requires
        pending_events(*old(reader)).len() > 0,
    ensures
        e@ == pending_events(*old(reader))[0],
        pending_events(*final(reader)) == pending_events(*old(reader)).drop_first(),
{
    let tag = |t: &BytesStart| (t.name().0.to_vec(), t.attributes().flatten().map(|a| (a.key.0.to_vec(), a.value.to_vec())).collect());
    match reader.read_event() {
        Ok(Event::Start(t)) => RawEvent::Start(tag(&t)),
        Ok(Event::Empty(t)) => RawEvent::Empty(tag(&t)),
        Ok(Event::End(t)) => RawEvent::End(t.name().0.to_vec()),
        Ok(Event::Text(t)) => RawEvent::Text(t.unescape().ok().map(String::from)),
        Ok(Event::Eof) => RawEvent::Eof,
        Err(_) => RawEvent::Error,
        _ => RawEvent::Other,
    }
}

pub(crate) fn local_part_exec(k: &str) -> (r: String)
    ensures
        r@ == local_part(k@),
{
    let v = chars_of(k);
    let p = find_char_exec(&v, ':', 0);
    if p < v.len() {
        let r = string_of_range(&v, p + 1, v.len());
        assert(v@.subrange(p + 1, v.len() as int) =~= v@.skip(p + 1));
        r
    } else {
        string_of(&v)
    }
}

fn cook_tag_exec(name: &Vec<u8>, attrs: &Vec<(Vec<u8>, Vec<u8>)>) -> (t: XmlTag)
    ensures
        t@ == cook_tag(name@, byte_pairs(attrs@)),
{
    let n = from_utf8_lossy(name.as_slice());
    let local = local_part_exec(n.as_str());
    let mut out: Vec<XmlAttr> = Vec::new();
    let ghost bp = byte_pairs(attrs@);
    let mut i: usize = 0;
    while i < attrs.len()
        invariant
            0 <= i <= attrs.len(),
            bp == byte_pairs(attrs@),
            attr_views(out@) == bp.take(i as int).map_values(
                |a: (Seq<u8>, Seq<u8>)| (utf8_lossy(a.0), utf8_lossy(a.1)),
            ),
            attr_values(out@) == bp.take(i as int).map_values(
                |a: (Seq<u8>, Seq<u8>)| (utf8_lossy(a.0), xml_unescaped(a.1)),
            ),
        decreases attrs.len() - i,
    {
        let key = from_utf8_lossy(attrs[i].0.as_slice());
        let raw = from_utf8_lossy(attrs[i].1.as_slice());
        let value = unescape_value(attrs[i].1.as_slice());
        let ghost before = out@;
        out.push(XmlAttr { key, raw, value });
        assert(bp.take(i + 1) =~= bp.take(i as int).push(bp[i as int]));
        assert(attr_views(out@) =~= attr_views(before).push((utf8_lossy(bp[i as int].0), utf8_lossy(bp[i as int].1))));
        assert(attr_values(out@) =~= attr_values(before).push((utf8_lossy(bp[i as int].0), xml_unescaped(bp[i as int].1))));
        assert(bp.take(i + 1).map_values(|a: (Seq<u8>, Seq<u8>)| (utf8_lossy(a.0), utf8_lossy(a.1))) =~= bp.take(i as int).map_values(|a: (Seq<u8>, Seq<u8>)| (utf8_lossy(a.0), utf8_lossy(a.1))).push((utf8_lossy(bp[i as int].0), utf8_lossy(bp[i as int].1))));
        assert(bp.take(i + 1).map_values(|a: (Seq<u8>, Seq<u8>)| (utf8_lossy(a.0), xml_unescaped(a.1))) =~= bp.take(i as int).map_values(|a: (Seq<u8>, Seq<u8>)| (utf8_lossy(a.0), xml_unescaped(a.1))).push((utf8_lossy(bp[i as int].0), xml_unescaped(bp[i as int].1))));
        i += 1;
    }
    assert(bp.take(i as int) =~= bp);
    XmlTag { name: n, local, attrs: out }
}

/// An event as the parsers see it.
pub fn cook_event(e: RawEvent) -> (r: XmlEvent)
    ensures
        r@ == cook(e@),
{
    match e {
        RawEvent::Start(t) => XmlEvent::Start(cook_tag_exec(&t.0, &t.1)),
        RawEvent::Empty(t) => XmlEvent::Empty(cook_tag_exec(&t.0, &t.1)),
        RawEvent::End(n) => {
            let name = from_utf8_lossy(n.as_slice());
            let local = local_part_exec(name.as_str());
            XmlEvent::End(name, local)
        },
        RawEvent::Text(t) => XmlEvent::Text(t),
        RawEvent::Eof => XmlEvent::Eof,
        RawEvent::Error => XmlEvent::Error,
        RawEvent::Other => XmlEvent::Other,
    }
}

/// Reads all events of `xml` up to and including the end of the document or
/// the first error.
pub fn read_events(xml: &str, trim: bool) -> (r: Vec<XmlEvent>)
    ensures
        r@.map_values(|e: XmlEvent| e@) == cooked_events(xml@, trim),
{
    let mut reader = reader_from_str(xml, trim);
    let ghost all = xml_events(xml@, trim);
    let mut out: Vec<XmlEvent> = Vec::new();
    loop
        invariant
            all == xml_events(xml@, trim),
            is_event_stream(all),
            out@.len() < all.len(),
            pending_events(reader) == all.skip(out@.len() as int),
            out@.map_values(|e: XmlEvent| e@) == all.take(out@.len() as int).map_values(|e: RawView| cook(e)),
        decreases all.len() - out@.len(),
    {
        let raw = next_event(&mut reader);
        let stop = match &raw {
            RawEvent::Eof => true,
            RawEvent::Error => true,
            _ => false,
        };
        let ghost k = out@.len() as int;
        let ghost rv = raw@;
        assert(all.skip(k)[0] == all[k]);
        assert(rv == all[k]);
        let e = cook_event(raw);
        let ghost before = out@;
        out.push(e);
        assert(out@.map_values(|e: XmlEvent| e@) =~= before.map_values(|e: XmlEvent| e@).push(cook(rv)));
        assert(all.take(k + 1) =~= all.take(k).push(all[k]));
        assert(out@.map_values(|e: XmlEvent| e@) =~= all.take(k + 1).map_values(|e: RawView| cook(e)));
        if stop {
            assert(k == all.len() - 1);
            assert(all.take(k + 1) =~= all);
            return out;
        }
        assert(all.skip(k).drop_first() =~= all.skip(k + 1));
    }
}

// ─── Document structure ──────────────────────────────────────────────────

/// The open elements after an event: a start tag opens one, an end tag
/// closes the innermost.
pub open spec fn next_stack(s: Seq<Seq<char>>, e: EventView) -> Seq<Seq<char>> {
    match e {
        EventView::Start(t) => s.push(t.local),
        EventView::End(_, _) => if s.len() > 0 {
            s.drop_last()
        } else {
            s
        },
        _ => s,
    }
}

/// The local names of the elements open before event `i`.
pub open spec fn stack_at(evs: Seq<EventView>, i: int) -> Seq<Seq<char>>
    decreases i,
{
    if i <= 0 || i > evs.len() {
        seq![]
    } else {
        next_stack(stack_at(evs, i - 1), evs[i - 1])
    }
}

/// The index of the first terminal event at or after `i` (the length if
/// there is none).
pub open spec fn stop_from(evs: Seq<EventView>, i: int) -> int
    decreases evs.len() - i,
{
    if i < 0 || i >= evs.len() {
        evs.len() as int
    } else if is_terminal(evs[i]) {
        i
    } else {
        stop_from(evs, i + 1)
    }
}

/// Whether reading stopped at an error rather than at the end.
pub open spec fn ends_in_error(evs: Seq<EventView>) -> bool {
    let k = stop_from(evs, 0);
    k < evs.len() && evs[k] is Error
}

/// The tag of a start or empty-element event with the local name `name`.
pub open spec fn tag_named(e: EventView, name: Seq<char>) -> Option<TagView> {
    match e {
        EventView::Start(t) => if t.local == name {
            Some(t)
        } else {
            None
        },
        EventView::Empty(t) => if t.local == name {
            Some(t)
        } else {
            None
        },
        _ => None,
    }
}

/// The open elements are the root alone (`parent` none) or the root and a
/// child named `parent`.
pub open spec fn under(s: Seq<Seq<char>>, parent: Option<Seq<char>>) -> bool {
    match parent {
        None => s.len() == 1,
        Some(p) => s.len() == 2 && s[1] == p,
    }
}

/// The indexes, below `n`, of the `name` elements placed as `under` says.
pub open spec fn matches_upto(evs: Seq<EventView>, n: int, parent: Option<Seq<char>>, name: Seq<char>) -> Seq<int>
    decreases n,
{
    if n <= 0 {
        seq![]
    } else {
        let r = matches_upto(evs, n - 1, parent, name);
        if tag_named(evs[n - 1], name) is Some && under(stack_at(evs, n - 1), parent) {
            r.push(n - 1)
        } else {
            r
        }
    }
}

/// The indexes of the `name` elements that are children of the root
/// (`parent` none) or of a child `parent` of the root, read before the end
/// or the first error.
pub open spec fn tags_at(evs: Seq<EventView>, parent: Option<Seq<char>>, name: Seq<char>) -> Seq<int> {
    matches_upto(evs, stop_from(evs, 0), parent, name)
}

pub open spec fn stack_views(v: Seq<String>) -> Seq<Seq<char>> {
    v.map_values(|s: String| s@)
}

/// Updates the open elements for one event.
pub fn step_stack(stack: &mut Vec<String>, e: &XmlEvent)
    ensures
        stack_views(final(stack)@) == next_stack(stack_views(old(stack)@), e@),
{
    match e {
        XmlEvent::Start(t) => {
            let ghost before = stack@;
            stack.push(t.local.clone());
            assert(stack_views(stack@) =~= stack_views(before).push(t.local@));
        },
        XmlEvent::End(_, _) => {
            if stack.len() > 0 {
                let ghost before = stack@;
                stack.pop();
                assert(stack_views(stack@) =~= stack_views(before).drop_last());
            }
        },
        _ => {},
    }
}

/// Whether an event ends the reading.
pub fn stops(e: &XmlEvent) -> (b: bool)
    ensures
        b == is_terminal(e@),
{
    match e {
        XmlEvent::Eof => true,
        XmlEvent::Error => true,
        _ => false,
    }
}

/// Whether an event is a start or empty-element tag named `name`.
pub fn is_tag_named(e: &XmlEvent, name: &str) -> (b: bool)
    ensures
        b == (tag_named(e@, name@) is Some),
{
    match e {
        XmlEvent::Start(t) => crate::text::same_str(t.local.as_str(), name),
        XmlEvent::Empty(t) => crate::text::same_str(t.local.as_str(), name),
        _ => false,
    }
}

/// The indexes of the `name` elements that are children of the root
/// (`parent` none) or of a child `parent` of the root.
pub fn find_tags(evs: &Vec<XmlEvent>, parent: Option<&str>, name: &str) -> (r: Vec<usize>)
    ensures
        r@.map_values(|i: usize| i as int) == tags_at(
            evs@.map_values(|e: XmlEvent| e@),
            match parent {
                Some(p) => Some(p@),
                None => None,
            },
            name@,
        ),
{
    let ghost ev = evs@.map_values(|e: XmlEvent| e@);
    let ghost par = match parent {
        Some(p) => Some(p@),
        None => None,
    };
    let mut stack: Vec<String> = Vec::new();
    let mut out: Vec<usize> = Vec::new();
    let mut i: usize = 0;
    assert(stack_views(stack@) =~= Seq::<Seq<char>>::empty());
    assert(out@.map_values(|i: usize| i as int) =~= Seq::<int>::empty());
    while i < evs.len() && !stops(&evs[i])
        invariant
            0 <= i <= evs.len(),
            ev == evs@.map_values(|e: XmlEvent| e@),
            par == match parent {
                Some(p) => Some(p@),
                None => None,
            },
            stop_from(ev, 0) == stop_from(ev, i as int),
            stack_views(stack@) == stack_at(ev, i as int),
            out@.map_values(|i: usize| i as int) == matches_upto(ev, i as int, par, name@),
        decreases evs.len() - i,
    {
        assert(ev[i as int] == evs@[i as int]@);
        let named = is_tag_named(&evs[i], name);
        let placed = match parent {
            None => stack.len() == 1,
            Some(p) => {
                if stack.len() == 2 {
                    let same = crate::text::same_str(stack[1].as_str(), p);
                    assert(stack_views(stack@)[1] == stack@[1]@);
                    same
                } else {
                    false
                }
            },
        };
        assert(stack_views(stack@).len() == stack@.len());
        assert(placed == under(stack_at(ev, i as int), par));
        let here = named && placed;
        let ghost before = out@;
        if here {
            out.push(i);
        }
        assert(out@.map_values(|i: usize| i as int) =~= matches_upto(ev, i + 1, par, name@));
        step_stack(&mut stack, &evs[i]);
        i += 1;
    }
    proof {
        assert(stop_from(ev, i as int) == i);
    }
    out
}

// ─── Lists in one run ────────────────────────────────────────────────────

/// XML white space: space, tab, line feed, carriage return.
pub open spec fn is_xml_space(c: char) -> bool {
    c == ' ' || c == '\t' || c == '\n' || c == '\r'
}

/// Text made of XML white space only (which a deserializer drops).
pub open spec fn is_xml_blank(s: Seq<char>) -> bool {
    forall|k: int| 0 <= k < s.len() ==> is_xml_space(#[trigger] s[k])
}

/// A child that ends a list of `name` elements: another element, or text
/// that is not blank.
pub open spec fn breaks_run(e: EventView, name: Seq<char>) -> bool {
    match e {
        EventView::Start(t) => t.local != name,
        EventView::Empty(t) => t.local != name,
        EventView::Text(Some(s)) => !is_xml_blank(s),
        EventView::Text(None) => true,
        _ => false,
    }
}

/// Scanning the events below `n` for the `name` children of the `parent`
/// placement: whether one was seen, whether the list was ended after it,
/// and whether one came after the list had ended.
pub open spec fn run_scan(evs: Seq<EventView>, n: int, parent: Option<Seq<char>>, name: Seq<char>) -> (bool, bool, bool)
    decreases n,
{
    if n <= 0 {
        (false, false, false)
    } else {
        let (seen, ended, split) = run_scan(evs, n - 1, parent, name);
        if under(stack_at(evs, n - 1), parent) {
            if tag_named(evs[n - 1], name) is Some {
                (true, false, split || (seen && ended))
            } else if breaks_run(evs[n - 1], name) {
                (seen, ended || seen, split)
            } else {
                (seen, ended, split)
            }
        } else {
            (seen, ended, split)
        }
    }
}

/// The `name` children of the `parent` placement do not come in one run:
/// another child or text stands between two of them (read before the end or
/// the first error).
pub open spec fn split_run(evs: Seq<EventView>, parent: Option<Seq<char>>, name: Seq<char>) -> bool {
    run_scan(evs, stop_from(evs, 0), parent, name).2
}

fn is_blank_exec(s: &String) -> (b: bool)
    ensures
        b == is_xml_blank(s@),
{
    let cs = chars_of(s.as_str());
    let mut k: usize = 0;
    while k < cs.len()
        invariant
            0 <= k <= cs.len(),
            cs@ == s@,
            forall|j: int| 0 <= j < k ==> is_xml_space(#[trigger] cs@[j]),
        decreases cs.len() - k,
    {
        let c = cs[k];
        if !(c == ' ' || c == '\t' || c == '\n' || c == '\r') {
            assert(!is_xml_space(cs@[k as int]));
            return false;
        }
        k += 1;
    }
    true
}

fn breaks_run_exec(e: &XmlEvent, name: &str) -> (b: bool)
    ensures
        b == breaks_run(e@, name@),
{
    match e {
        XmlEvent::Start(t) => !crate::text::same_str(t.local.as_str(), name),
        XmlEvent::Empty(t) => !crate::text::same_str(t.local.as_str(), name),
        XmlEvent::Text(Some(s)) => !is_blank_exec(s),
        XmlEvent::Text(None) => true,
        _ => false,
    }
}

/// Whether the `name` children of a child `parent` of the root fail to come
/// in one run.
pub fn split_run_exec(evs: &Vec<XmlEvent>, parent: &str, name: &str) -> (b: bool)
    ensures
        b == split_run(evs@.map_values(|e: XmlEvent| e@), Some(parent@), name@),
{
    let ghost ev = evs@.map_values(|e: XmlEvent| e@);
    let mut stack: Vec<String> = Vec::new();
    let mut seen = false;
    let mut ended = false;
    let mut split = false;
    let mut i: usize = 0;
    assert(stack_views(stack@) =~= Seq::<Seq<char>>::empty());
    while i < evs.len() && !stops(&evs[i])
        invariant
            0 <= i <= evs.len(),
            ev == evs@.map_values(|e: XmlEvent| e@),
            stop_from(ev, 0) == stop_from(ev, i as int),
            stack_views(stack@) == stack_at(ev, i as int),
            (seen, ended, split) == run_scan(ev, i as int, Some(parent@), name@),
        decreases evs.len() - i,
    {
        assert(ev[i as int] == evs@[i as int]@);
        let placed = if stack.len() == 2 {
            let same = crate::text::same_str(stack[1].as_str(), parent);
            assert(stack_views(stack@)[1] == stack@[1]@);
            same
        } else {
            false
        };
        assert(stack_views(stack@).len() == stack@.len());
        assert(placed == under(stack_at(ev, i as int), Some(parent@)));
        if placed {
            if is_tag_named(&evs[i], name) {
                split = split || (seen && ended);
                seen = true;
                ended = false;
            } else if breaks_run_exec(&evs[i], name) {
                ended = ended || seen;
            }
        }
        step_stack(&mut stack, &evs[i]);
        i += 1;
    }
    proof {
        assert(stop_from(ev, i as int) == i);
    }
    split
}

} // verus!
