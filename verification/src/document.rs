//! An EPUB document held in memory: its ZIP archive, metadata, reading
//! order and table of contents, and access to its chapters and assets.

use vstd::prelude::*;
use std::io::Cursor;
use std::io::Read;
use zip::ZipArchive;
use crate::html::{parse_html_segments, spec_parse_html_segments, spec_strip_html, strip_html};
use crate::ncx::{parse_ncx, spec_parse_ncx};
use crate::opf::{find_ncx_href, parse_container, parse_opf, spec_ncx_href, spec_parse_container, spec_parse_opf};
use crate::paths::{resolve_path, spec_resolve_path};
use crate::reader::rfind_char;
use crate::text::{chars_of, extend, string_of, string_of_range};
use crate::toc::{TocNode, extract_toc_from_spine, nodes_of, toc_from_spine};
use crate::types::{ContentSegment, MetaView, Metadata, SpineItem, SpineView, TocItem, segment_views, spine_views};
use crate::xml::cooked_events;

verus! {

#[verifier::external_type_specification]
#[verifier::external_body]
#[verifier::reject_recursive_types(T)]
pub struct ExCursor<T>(Cursor<T>);

#[verifier::external_type_specification]
#[verifier::external_body]
#[verifier::reject_recursive_types(R)]
pub struct ExZipArchive<R>(ZipArchive<R>);

/// The bytes an archive reads from.
pub uninterp spec fn archive_data(a: ZipArchive<Cursor<Vec<u8>>>) -> Seq<u8>;

/// Whether the `zip` crate opens `data` as an archive.
pub uninterp spec fn zip_opens(data: Seq<u8>) -> bool;

/// What the `zip` crate gives for the entry `name` of the archive `data`,
/// read as text: `None` when the entry cannot be had (`by_name` fails),
/// else the text or the message of the read error.
pub uninterp spec fn zip_text(data: Seq<u8>, name: Seq<char>) -> Option<Result<Seq<char>, Seq<char>>>;

/// What the `zip` crate gives for the entry `name` of the archive `data`,
/// read as bytes: `None` when the entry cannot be had (`by_name` fails),
/// else the bytes or the message of the read error.
pub uninterp spec fn zip_bytes(data: Seq<u8>, name: Seq<char>) -> Option<Result<Seq<u8>, Seq<char>>>;

/// `zip::ZipArchive::new` over the bytes. The contract names whether it
/// opens and states that the archive reads from those bytes.
#[verifier::external_body]
fn zip_open(data: Vec<u8>) -> (r: Option<ZipArchive<Cursor<Vec<u8>>>>)
    ensures
        r is Some == zip_opens(data@),
        r matches Some(a) ==> archive_data(a) == data@,
{
    ZipArchive::new(Cursor::new(data)).ok()
}

/// `ZipArchive::by_name` followed by `read_to_string`. The contract names
/// the outcome as a function of the archive's bytes and the entry name, and
/// states that the archive still reads from the same bytes.
#[verifier::external_body]
fn zip_read_text(a: &mut ZipArchive<Cursor<Vec<u8>>>, name: &str) -> (r: Option<Result<String, String>>)
    ensures
        archive_data(*final(a)) == archive_data(*old(a)),
        match r {
            None => zip_text(archive_data(*old(a)), name@) is None,
            Some(Ok(s)) => zip_text(archive_data(*old(a)), name@) == Some(Ok::<Seq<char>, Seq<char>>(s@)),
            Some(Err(e)) => zip_text(archive_data(*old(a)), name@) == Some(Err::<Seq<char>, Seq<char>>(e@)),
        },
{
    match a.by_name(name) {
        Ok(mut f) => {
            let mut buf = String::new();
            match f.read_to_string(&mut buf) {
                Ok(_) => Some(Ok(buf)),
                Err(e) => Some(Err(e.to_string())),
            }
        },
        Err(_) => None,
    }
}

/// `ZipArchive::by_name` followed by `read_to_end`. The contract names the
/// outcome as a function of the archive's bytes and the entry name, and
/// states that the archive still reads from the same bytes.
#[verifier::external_body]
fn zip_read_bytes(a: &mut ZipArchive<Cursor<Vec<u8>>>, name: &str) -> (r: Option<Result<Vec<u8>, String>>)
    ensures
        archive_data(*final(a)) == archive_data(*old(a)),
        match r {
            None => zip_bytes(archive_data(*old(a)), name@) is None,
            Some(Ok(b)) => zip_bytes(archive_data(*old(a)), name@) == Some(Ok::<Seq<u8>, Seq<char>>(b@)),
            Some(Err(e)) => zip_bytes(archive_data(*old(a)), name@) == Some(Err::<Seq<u8>, Seq<char>>(e@)),
        },
{
    match a.by_name(name) {
        Ok(mut f) => {
            let mut buf = Vec::new();
            match f.read_to_end(&mut buf) {
                Ok(_) => Some(Ok(buf)),
                Err(e) => Some(Err(e.to_string())),
            }
        },
        Err(_) => None,
    }
}

/// The end of `p[..j]` once its trailing separators and `.` components are
/// dropped (a `.` that starts the path stays).
pub open spec fn back_trim(p: Seq<char>, j: int) -> int
    decreases j,
{
    if 0 < j <= p.len() && p[j - 1] == '/' {
        back_trim(p, j - 1)
    } else if 2 <= j <= p.len() && p[j - 1] == '.' && p[j - 2] == '/' {
        back_trim(p, j - 1)
    } else {
        j
    }
}

/// The directory of a path inside the archive, whose components are
/// separated by `/`, as `Path::parent` reads it: trailing separators and `.`
/// components are dropped, then the last component, then the separators and
/// `.` components that end what is left; the root stays `/`, and a path of
/// one component has the empty directory.
pub open spec fn dir_of(p: Seq<char>) -> Seq<char> {
    let e = back_trim(p, p.len() as int);
    let k = rfind_char(p, '/', e);
    if k >= 0 {
        let d = back_trim(p, k);
        if d == 0 && p[0] == '/' {
            seq!['/']
        } else {
            p.take(d)
        }
    } else {
        seq![]
    }
}

/// The end of `cs[..j]` once its trailing separators and `.` components are
/// dropped.
fn back_trim_exec(cs: &Vec<char>, j: usize) -> (r: usize)
    requires
        j <= cs.len(),
    ensures
        r == back_trim(cs@, j as int),
        r <= j,
{
    let mut i = j;
    while (i > 0 && cs[i - 1] == '/') || (i >= 2 && cs[i - 1] == '.' && cs[i - 2] == '/')
        invariant
            i <= j <= cs.len(),
            back_trim(cs@, i as int) == back_trim(cs@, j as int),
        decreases i,
    {
        i -= 1;
    }
    i
}

/// The directory of a path inside the archive.
pub fn parent_dir(p: &str) -> (r: String)
    ensures
        r@ == dir_of(p@),
{
    let cs = chars_of(p);
    let e = back_trim_exec(&cs, cs.len());
    let mut j = e;
    while j > 0 && cs[j - 1] != '/'
        invariant
            j <= e <= cs.len(),
            rfind_char(cs@, '/', e as int) == rfind_char(cs@, '/', j as int),
        decreases j,
    {
        j -= 1;
    }
    if j == 0 {
        String::new()
    } else {
        let k = j - 1;
        let d = back_trim_exec(&cs, k);
        if d == 0 && cs[0] == '/' {
            let mut root: Vec<char> = Vec::new();
            root.push('/');
            assert(root@ =~= seq!['/']);
            string_of(&root)
        } else {
            string_of_range(&cs, 0, d)
        }
    }
}

/// An EPUB document loaded in memory.
pub struct EpubDocument {
    pub archive: ZipArchive<Cursor<Vec<u8>>>,
    pub metadata: Metadata,
    pub spine: Vec<SpineItem>,
    pub toc: Vec<TocItem>,
    pub opf_dir: String,
}

/// What a document holds.
pub struct DocView {
    pub data: Seq<u8>,
    pub metadata: MetaView,
    pub spine: Seq<SpineView>,
    pub toc: Seq<TocNode>,
    pub opf_dir: Seq<char>,
}

impl View for EpubDocument {
    type V = DocView;

    open spec fn view(&self) -> DocView {
        DocView {
            data: archive_data(self.archive),
            metadata: self.metadata@,
            spine: spine_views(self.spine@),
            toc: nodes_of(self.toc@),
            opf_dir: self.opf_dir@,
        }
    }
}

/// The table of contents: the NCX file's when the OPF names one that can be
/// read, else one entry per spine item.
pub open spec fn spec_toc(data: Seq<u8>, opf_dir: Seq<char>, opf: Seq<char>, spine: Seq<SpineView>) -> Seq<TocNode> {
    match spec_ncx_href(cooked_events(opf, false)) {
        Some(n) => match zip_text(data, spec_resolve_path(opf_dir, n)) {
            Some(Ok(x)) => spec_parse_ncx(cooked_events(x, true)),
            _ => toc_from_spine(spine),
        },
        None => toc_from_spine(spine),
    }
}

/// What opening the bytes of an EPUB gives.
pub open spec fn spec_from_bytes(data: Seq<u8>) -> Result<DocView, Seq<char>> {
    if !zip_opens(data) {
        Err("Could not open ZIP archive (EPUB)"@)
    } else {
        match zip_text(data, "META-INF/container.xml"@) {
            None => Err("container.xml not found in EPUB"@),
            Some(Err(e)) => Err(e),
            Some(Ok(c)) => match spec_parse_container(cooked_events(c, false)) {
                Err(e) => Err(e),
                Ok(opf_path) => match zip_text(data, opf_path) {
                    None => Err("OPF file not found: "@ + opf_path),
                    Some(Err(e)) => Err(e),
                    Some(Ok(opf)) => match spec_parse_opf(cooked_events(opf, false)) {
                        Err(e) => Err(e),
                        Ok((m, spine)) => Ok(
                            DocView {
                                data,
                                metadata: m,
                                spine,
                                toc: spec_toc(data, dir_of(opf_path), opf, spine),
                                opf_dir: dir_of(opf_path),
                            },
                        ),
                    },
                },
            },
        }
    }
}

pub open spec fn doc_result(r: Result<EpubDocument, String>) -> Result<DocView, Seq<char>> {
    match r {
        Ok(d) => Ok(d@),
        Err(e) => Err(e@),
    }
}

/// `prefix` followed by `s`.
fn prefixed(prefix: &str, s: &str) -> (r: String)
    ensures
        r@ == prefix@ + s@,
{
    let mut v = chars_of(prefix);
    let w = chars_of(s);
    extend(&mut v, &w);
    string_of(&v)
}

/// What reading a chapter as text gives: the entry's text, or an error.
pub open spec fn spec_content(d: DocView, href: Seq<char>) -> Result<Seq<char>, Seq<char>> {
    let full = spec_resolve_path(d.opf_dir, href);
    match zip_text(d.data, full) {
        None => Err("File not found: "@ + full),
        Some(r) => r,
    }
}

/// What reading the archive entry `full` as bytes gives: its bytes, or an
/// error naming it.
pub open spec fn spec_entry_bytes(d: DocView, full: Seq<char>) -> Result<Seq<u8>, Seq<char>> {
    match zip_bytes(d.data, full) {
        None => Err("Asset not found: "@ + full),
        Some(r) => r,
    }
}

/// What reading an asset gives, by its href relative to the OPF directory.
pub open spec fn spec_asset(d: DocView, href: Seq<char>) -> Result<Seq<u8>, Seq<char>> {
    spec_entry_bytes(d, spec_resolve_path(d.opf_dir, href))
}

/// What reading an image gives, by its path relative to the root of the
/// archive.
pub open spec fn spec_image_bytes(d: DocView, path: Seq<char>) -> Result<Seq<u8>, Seq<char>> {
    spec_entry_bytes(d, spec_resolve_path(""@, path))
}

pub open spec fn text_result(r: Result<String, String>) -> Result<Seq<char>, Seq<char>> {
    match r {
        Ok(s) => Ok(s@),
        Err(e) => Err(e@),
    }
}

pub open spec fn bytes_result(r: Result<Vec<u8>, String>) -> Result<Seq<u8>, Seq<char>> {
    match r {
        Ok(b) => Ok(b@),
        Err(e) => Err(e@),
    }
}

impl EpubDocument {
    /// Opens an EPUB from its bytes.
    pub fn from_bytes(data: Vec<u8>) -> (r: Result<Self, String>)
        ensures
            doc_result(r) == spec_from_bytes(data@),
    {
        let ghost d = data@;
        let mut archive = match zip_open(data) {
            Some(a) => a,
            None => {
                return Err("Could not open ZIP archive (EPUB)".to_owned());
            },
        };
        let container = match zip_read_text(&mut archive, "META-INF/container.xml") {
            None => {
                return Err("container.xml not found in EPUB".to_owned());
            },
            Some(Err(e)) => {
                return Err(e);
            },
            Some(Ok(t)) => t,
        };
        let opf_path = match parse_container(container.as_str()) {
            Ok(p) => p,
            Err(e) => {
                return Err(e);
            },
        };
        let opf_dir = parent_dir(opf_path.as_str());
        let opf_content = match zip_read_text(&mut archive, opf_path.as_str()) {
            None => {
                return Err(prefixed("OPF file not found: ", opf_path.as_str()));
            },
            Some(Err(e)) => {
                return Err(e);
            },
            Some(Ok(t)) => t,
        };
        let (metadata, spine) = match parse_opf(opf_content.as_str()) {
            Ok(p) => p,
            Err(e) => {
                return Err(e);
            },
        };
        let toc = match find_ncx_href(opf_content.as_str()) {
            Some(ncx_path) => {
                let full_ncx = resolve_path(opf_dir.as_str(), ncx_path.as_str());
                match zip_read_text(&mut archive, full_ncx.as_str()) {
                    Some(Ok(ncx_xml)) => parse_ncx(ncx_xml.as_str()),
                    _ => extract_toc_from_spine(spine.as_slice()),
                }
            },
            None => extract_toc_from_spine(spine.as_slice()),
        };
        Ok(EpubDocument { archive, metadata, spine, toc, opf_dir })
    }

    /// The text of a chapter, by its href relative to the OPF directory.
    pub fn get_content(&mut self, href: &str) -> (r: Result<String, String>)
        ensures
            final(self)@ == old(self)@,
            text_result(r) == spec_content(old(self)@, href@),
    {
        let full_path = resolve_path(self.opf_dir.as_str(), href);
        match zip_read_text(&mut self.archive, full_path.as_str()) {
            None => Err(prefixed("File not found: ", full_path.as_str())),
            Some(r) => r,
        }
    }

    /// The text of a chapter with its markup removed.
    pub fn get_text_content(&mut self, href: &str) -> (r: Result<String, String>)
        ensures
            final(self)@ == old(self)@,
            text_result(r) == match spec_content(old(self)@, href@) {
                Ok(h) => Ok(spec_strip_html(h)),
                Err(e) => Err(e),
            },
    {
        let html = match self.get_content(href) {
            Ok(h) => h,
            Err(e) => {
                return Err(e);
            },
        };
        Ok(strip_html(html.as_str()))
    }

    /// The styled text and image segments of a chapter; image references
    /// are resolved against the chapter's own directory.
    pub fn get_content_segments(&mut self, href: &str) -> (r: Result<Vec<ContentSegment>, String>)
        ensures
            final(self)@ == old(self)@,
            match r {
                Ok(v) => spec_content(old(self)@, href@) matches Ok(h) && segment_views(v@)
                    == spec_parse_html_segments(h, dir_of(href@)),
                Err(e) => spec_content(old(self)@, href@) == Err::<Seq<char>, Seq<char>>(e@),
            },
    {
        let html = match self.get_content(href) {
            Ok(h) => h,
            Err(e) => {
                return Err(e);
            },
        };
        let base_dir = parent_dir(href);
        Ok(parse_html_segments(html.as_str(), base_dir.as_str()))
    }

    /// The bytes of an image, by its path relative to the root of the
    /// archive.
    pub fn get_image_bytes(&mut self, path: &str) -> (r: Result<Vec<u8>, String>)
        ensures
            final(self)@ == old(self)@,
            bytes_result(r) == spec_image_bytes(old(self)@, path@),
    {
        let full_path = resolve_path("", path);
        self.entry_bytes(full_path.as_str())
    }

    /// The bytes of the archive entry `full`.
    fn entry_bytes(&mut self, full: &str) -> (r: Result<Vec<u8>, String>)
        ensures
            final(self)@ == old(self)@,
            bytes_result(r) == spec_entry_bytes(old(self)@, full@),
    {
        match zip_read_bytes(&mut self.archive, full) {
            None => Err(prefixed("Asset not found: ", full)),
            Some(r) => r,
        }
    }

    /// The bytes of an image or other asset, by its href relative to the OPF
    /// directory.
    pub fn get_asset(&mut self, href: &str) -> (r: Result<Vec<u8>, String>)
        ensures
            final(self)@ == old(self)@,
            bytes_result(r) == spec_asset(old(self)@, href@),
    {
        let full_path = resolve_path(self.opf_dir.as_str(), href);
        self.entry_bytes(full_path.as_str())
    }
}

} // verus!
