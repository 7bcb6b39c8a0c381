//! The reader's own state between books: the recent-files list, the chapter
//! a book reopens at, and the filtered lists of the search dialogs.

use vstd::prelude::*;
use crate::html::{find_sub, find_sub_exec};
use crate::paths::{is_portable_path, last_piece};
use crate::text::{chars_of, is_part_of, lowercase, to_lowercase};

verus! {

/// The most recent files the list keeps.
pub const MAX_RECENT: usize = 20;

/// A list without the entries equal to `x`.
pub open spec fn without(s: Seq<Seq<char>>, x: Seq<char>) -> Seq<Seq<char>>
    decreases s.len(),
{
    if s.len() == 0 {
        seq![]
    } else if s.last() == x {
        without(s.drop_last(), x)
    } else {
        without(s.drop_last(), x).push(s.last())
    }
}

pub open spec fn paths_of(v: Seq<String>) -> Seq<Seq<char>> {
    v.map_values(|s: String| s@)
}

/// The recent files after opening `path`: it moves to the front, appears
/// once, and the list keeps at most twenty entries.
pub open spec fn spec_add_recent(files: Seq<Seq<char>>, path: Seq<char>) -> Seq<Seq<char>> {
    let l = seq![path] + without(files, path);
    if l.len() > MAX_RECENT {
        l.take(MAX_RECENT as int)
    } else {
        l
    }
}

/// Removes every entry equal to `path`.
pub fn remove_recent_file(files: &mut Vec<String>, path: &str)
    ensures
        paths_of(final(files)@) == without(paths_of(old(files)@), path@),
{
    let p = path.to_owned();
    let mut kept: Vec<String> = Vec::new();
    let mut i: usize = 0;
    assert(paths_of(old(files)@).take(0) =~= Seq::<Seq<char>>::empty());
    assert(paths_of(kept@) =~= Seq::<Seq<char>>::empty());
    while i < files.len()
        invariant
            0 <= i <= files.len(),
            files@ == old(files)@,
            p@ == path@,
            paths_of(kept@) == without(paths_of(files@).take(i as int), path@),
        decreases files.len() - i,
    {
        let ghost before = kept@;
        assert(paths_of(files@).take(i + 1).drop_last() =~= paths_of(files@).take(i as int));
        assert(paths_of(files@).take(i + 1).last() == files@[i as int]@);
        if files[i] != p {
            kept.push(files[i].clone());
            assert(paths_of(kept@) =~= paths_of(before).push(files@[i as int]@));
        }
        i += 1;
    }
    assert(paths_of(files@).take(i as int) =~= paths_of(files@));
    *files = kept;
}

/// Puts `path` at the front of the recent files, without repeating it, and
/// keeps the twenty most recent.
pub fn add_recent_file(files: &mut Vec<String>, path: &str)
    ensures
        paths_of(final(files)@) == spec_add_recent(paths_of(old(files)@), path@),
{
    remove_recent_file(files, path);
    let ghost rest = files@;
    files.insert(0, path.to_owned());
    assert(paths_of(files@) =~= seq![path@] + paths_of(rest));
    if files.len() > MAX_RECENT {
        let ghost full = files@;
        files.truncate(MAX_RECENT);
        assert(paths_of(files@) =~= paths_of(full).take(MAX_RECENT as int));
    }
}

/// The chapter a book reopens at: the saved one (when positions are kept
/// and one was saved), capped to the last chapter; else the first.
pub open spec fn spec_restored_chapter(keep: bool, saved: Option<usize>, count: usize) -> usize {
    if keep {
        match saved {
            Some(c) => {
                let last = if count > 0 {
                    (count - 1) as usize
                } else {
                    0usize
                };
                if c < last {
                    c
                } else {
                    last
                }
            },
            None => 0,
        }
    } else {
        0
    }
}

/// The chapter a book reopens at.
pub fn restored_chapter(keep: bool, saved: Option<usize>, count: usize) -> (r: usize)
    ensures
        r == spec_restored_chapter(keep, saved, count),
{
    if keep {
        match saved {
            Some(c) => {
                let last = count.saturating_sub(1);
                if c < last {
                    c
                } else {
                    last
                }
            },
            None => 0,
        }
    } else {
        0
    }
}

/// A list selection kept in range: one past the end moves to the last entry
/// (to the first of an empty list).
pub open spec fn spec_clamp_selection(selection: usize, len: usize) -> usize {
    let clamped = if len > 0 {
        (len - 1) as usize
    } else {
        0usize
    };
    if selection != clamped && selection >= len {
        clamped
    } else {
        selection
    }
}

/// Keeps a list selection in range.
pub fn clamp_selection(selection: usize, len: usize) -> (r: usize)
    ensures
        r == spec_clamp_selection(selection, len),
{
    let clamped = len.saturating_sub(1);
    if selection != clamped && selection >= len {
        clamped
    } else {
        selection
    }
}

/// Whether a label matches a search: the search is empty or the lowercased
/// label contains the lowercased search.
pub open spec fn label_matches(label: Seq<char>, search: Seq<char>) -> bool {
    lowercase(search).len() == 0 || find_sub(lowercase(label), lowercase(search), 0) is Some
}

/// The entries of the TOC window that match a search, in order.
pub open spec fn spec_filter_labels(flat: Seq<(Seq<char>, usize)>, search: Seq<char>) -> Seq<(Seq<char>, usize)>
    decreases flat.len(),
{
    if flat.len() == 0 {
        seq![]
    } else {
        let r = spec_filter_labels(flat.drop_last(), search);
        if label_matches(flat.last().0, search) {
            r.push(flat.last())
        } else {
            r
        }
    }
}

pub open spec fn pair_views(v: Seq<(String, usize)>) -> Seq<(Seq<char>, usize)> {
    v.map_values(|p: (String, usize)| (p.0@, p.1))
}

/// The entries of the TOC window's flat list whose label matches a search.
pub fn filter_labels(flat: &[(String, usize)], search: &str) -> (r: Vec<(String, usize)>)
    ensures
        pair_views(r@) == spec_filter_labels(pair_views(flat@), search@),
{
    let q = chars_of(to_lowercase(search).as_str());
    let mut out: Vec<(String, usize)> = Vec::new();
    let mut i: usize = 0;
    assert(pair_views(flat@).take(0) =~= Seq::<(Seq<char>, usize)>::empty());
    assert(pair_views(out@) =~= Seq::<(Seq<char>, usize)>::empty());
    while i < flat.len()
        invariant
            0 <= i <= flat.len(),
            q@ == lowercase(search@),
            pair_views(out@) == spec_filter_labels(pair_views(flat@).take(i as int), search@),
        decreases flat.len() - i,
    {
        let label = chars_of(to_lowercase(flat[i].0.as_str()).as_str());
        let hit = q.len() == 0 || find_sub_exec(&label, q.as_slice(), 0).is_some();
        let ghost before = out@;
        assert(pair_views(flat@).take(i + 1).drop_last() =~= pair_views(flat@).take(i as int));
        assert(pair_views(flat@).take(i + 1).last() == (flat@[i as int].0@, flat@[i as int].1));
        if hit {
            out.push((flat[i].0.clone(), flat[i].1));
            assert(pair_views(out@) =~= pair_views(before).push((flat@[i as int].0@, flat@[i as int].1)));
        }
        i += 1;
    }
    assert(pair_views(flat@).take(i as int) =~= pair_views(flat@));
    out
}

/// `std::path::Path::file_name`, decoded leniently. What it gives depends on
/// the platform's path syntax (on Windows `\` also separates components), so
/// the contract states what holds on every platform: a name is a part of the
/// path (the documentation: its final component), and for a path both read
/// alike (`is_portable_path`) it is the last `/`-separated piece.
#[verifier::external_body]
fn file_name_of(p: &str) -> (r: Option<String>)
    ensures
        r is Some ==> is_part_of(r.unwrap()@, p@),
        is_portable_path(p@) ==> r is Some && r.unwrap()@ == last_piece(p@),
{
    std::path::Path::new(p).file_name().map(|n| n.to_string_lossy().into_owned())
}

/// Whether a file name matches a search: the search is empty or the
/// lowercased name contains the lowercased search.
pub open spec fn name_matches(name: Seq<char>, search: Seq<char>) -> bool {
    lowercase(search).len() == 0 || find_sub(lowercase(name), lowercase(search), 0) is Some
}

/// The indexes of the file names that match a search, in order.
pub open spec fn spec_filter_recent(names: Seq<Seq<char>>, search: Seq<char>) -> Seq<usize>
    decreases names.len(),
{
    if names.len() == 0 {
        seq![]
    } else {
        let r = spec_filter_recent(names.drop_last(), search);
        if name_matches(names.last(), search) {
            r.push((names.len() - 1) as usize)
        } else {
            r
        }
    }
}

/// The name shown for a recent file: its file name as the platform reads
/// it, or empty. It is a part of the path, and its last `/`-separated piece
/// when the path reads alike on every platform.
pub open spec fn shown_name(name: Seq<char>, path: Seq<char>) -> bool {
    &&& (name.len() == 0 || is_part_of(name, path))
    &&& (is_portable_path(path) ==> name == last_piece(path))
}

/// The indexes of the recent files, given by their file names, that match
/// a search.
pub fn filter_recent_names(names: &[String], search: &str) -> (r: Vec<usize>)
    ensures
        r@ == spec_filter_recent(paths_of(names@), search@),
{
    let q = chars_of(to_lowercase(search).as_str());
    let mut out: Vec<usize> = Vec::new();
    let mut i: usize = 0;
    assert(paths_of(names@).take(0) =~= Seq::<Seq<char>>::empty());
    while i < names.len()
        invariant
            0 <= i <= names.len(),
            q@ == lowercase(search@),
            out@ == spec_filter_recent(paths_of(names@).take(i as int), search@),
        decreases names.len() - i,
    {
        assert(paths_of(names@).take(i + 1).drop_last() =~= paths_of(names@).take(i as int));
        assert(paths_of(names@).take(i + 1).last() == names@[i as int]@);
        let hit = if q.len() == 0 {
            true
        } else {
            let low = chars_of(to_lowercase(names[i].as_str()).as_str());
            find_sub_exec(&low, q.as_slice(), 0).is_some()
        };
        if hit {
            out.push(i);
        }
        i += 1;
    }
    assert(paths_of(names@).take(i as int) =~= paths_of(names@));
    out
}

/// The indexes of the recent files whose file name matches a search.
pub fn filter_recent_files(files: &[String], search: &str) -> (r: Vec<usize>)
    ensures
        exists|names: Seq<Seq<char>>|
            {
                &&& names.len() == files@.len()
                &&& forall|i: int| 0 <= i < names.len() ==> shown_name(#[trigger] names[i], files@[i]@)
                &&& r@ == #[trigger] spec_filter_recent(names, search@)
            },
{
    let mut names: Vec<String> = Vec::new();
    let mut i: usize = 0;
    while i < files.len()
        invariant
            0 <= i <= files.len(),
            names@.len() == i,
            forall|k: int| 0 <= k < i ==> shown_name(#[trigger] names@[k]@, files@[k]@),
        decreases files.len() - i,
    {
        let name = match file_name_of(files[i].as_str()) {
            Some(n) => n,
            None => String::new(),
        };
        names.push(name);
        i += 1;
    }
    let r = filter_recent_names(names.as_slice(), search);
    assert(paths_of(names@).len() == files@.len());
    assert forall|k: int| 0 <= k < paths_of(names@).len() implies shown_name(
        #[trigger] paths_of(names@)[k],
        files@[k]@,
    ) by {
        assert(paths_of(names@)[k] == names@[k]@);
    }
    r
}

// ─── Loading outcomes and dropped files ──────────────────────────────────

/// The message shown when loading a book fails: none when it was
/// cancelled, else the error after `Error: `.
pub open spec fn spec_load_error_message(e: Seq<char>) -> Option<Seq<char>> {
    if e == "Cancelled"@ {
        None
    } else {
        Some("Error: "@ + e)
    }
}

/// The message shown when loading a book fails.
pub fn load_error_message(e: &str) -> (r: Option<String>)
    ensures
        crate::types::opt_view(r) == spec_load_error_message(e@),
{
    if crate::text::same_str(e, "Cancelled") {
        None
    } else {
        let mut v = chars_of("Error: ");
        crate::text::extend(&mut v, &chars_of(e));
        Some(crate::text::string_of(&v))
    }
}

/// Whether a dropped file is opened as a book: its extension is `epub` in
/// any case, or its name ends with `.epub` in any case.
pub open spec fn spec_is_epub_drop(extension: Option<Seq<char>>, name: Seq<char>) -> bool {
    (extension matches Some(e) && lowercase(e) == "epub"@) || crate::text::ends_with(lowercase(name), ".epub"@)
}

/// Whether a dropped file is opened as a book.
pub fn is_epub_drop(extension: Option<&str>, name: &str) -> (b: bool)
    ensures
        b == spec_is_epub_drop(
            match extension {
                Some(e) => Some(e@),
                None => None,
            },
            name@,
        ),
{
    let by_ext = match extension {
        Some(e) => crate::text::same_str(to_lowercase(e).as_str(), "epub"),
        None => false,
    };
    if by_ext {
        return true;
    }
    let low = chars_of(to_lowercase(name).as_str());
    crate::text::ends_with_exec(&low, &chars_of(".epub"))
}

// ─── Keyboard shortcuts ──────────────────────────────────────────────────

/// The dialogs and lists the keyboard drives.
pub struct Panels {
    pub show_help: bool,
    pub show_settings: bool,
    pub show_recent: bool,
    pub show_toc_window: bool,
    pub show_conversation: bool,
    pub recent_search: String,
    pub recent_selection: usize,
    pub recent_needs_focus: bool,
    pub recent_scroll_to_sel: bool,
    pub toc_window_search: String,
    pub toc_window_selection: usize,
    pub toc_window_needs_focus: bool,
    pub toc_window_scroll_to_sel: bool,
    /// The configuration has a change to save.
    pub config_dirty: bool,
}

/// What the panels hold.
pub struct PanelsView {
    pub show_help: bool,
    pub show_settings: bool,
    pub show_recent: bool,
    pub show_toc_window: bool,
    pub show_conversation: bool,
    pub recent_search: Seq<char>,
    pub recent_selection: usize,
    pub recent_needs_focus: bool,
    pub recent_scroll_to_sel: bool,
    pub toc_window_search: Seq<char>,
    pub toc_window_selection: usize,
    pub toc_window_needs_focus: bool,
    pub toc_window_scroll_to_sel: bool,
    pub config_dirty: bool,
}

impl View for Panels {
    type V = PanelsView;

    open spec fn view(&self) -> PanelsView {
        PanelsView {
            show_help: self.show_help,
            show_settings: self.show_settings,
            show_recent: self.show_recent,
            show_toc_window: self.show_toc_window,
            show_conversation: self.show_conversation,
            recent_search: self.recent_search@,
            recent_selection: self.recent_selection,
            recent_needs_focus: self.recent_needs_focus,
            recent_scroll_to_sel: self.recent_scroll_to_sel,
            toc_window_search: self.toc_window_search@,
            toc_window_selection: self.toc_window_selection,
            toc_window_needs_focus: self.toc_window_needs_focus,
            toc_window_scroll_to_sel: self.toc_window_scroll_to_sel,
            config_dirty: self.config_dirty,
        }
    }
}

/// The shortcuts pressed in a frame.
#[derive(Clone, Copy)]
pub struct Keys {
    pub escape: bool,
    /// Ctrl+, (settings).
    pub settings: bool,
    /// Ctrl+R (recent files).
    pub recent: bool,
    /// Ctrl+G (table of contents).
    pub toc: bool,
    /// Ctrl+Shift+C (conversation panel).
    pub conversation: bool,
    /// Ctrl+O (open a file).
    pub open: bool,
    pub down: bool,
    pub up: bool,
}

/// The recent-files dialog opened with an empty search, focused.
pub open spec fn opened_recent(p: PanelsView) -> PanelsView {
    PanelsView {
        show_recent: true,
        recent_search: seq![],
        recent_selection: 0,
        recent_needs_focus: true,
        recent_scroll_to_sel: false,
        ..p
    }
}

/// The TOC window opened with an empty search, focused.
pub open spec fn opened_toc(p: PanelsView) -> PanelsView {
    PanelsView {
        show_toc_window: true,
        toc_window_search: seq![],
        toc_window_selection: 0,
        toc_window_needs_focus: true,
        toc_window_scroll_to_sel: false,
        ..p
    }
}

/// One step down a list (stopping at the largest index).
pub open spec fn step_down(i: usize) -> usize {
    if i < usize::MAX {
        (i + 1) as usize
    } else {
        i
    }
}

/// One step up a list (stopping at the first).
pub open spec fn step_up(i: usize) -> usize {
    if i > 0 {
        (i - 1) as usize
    } else {
        0
    }
}

/// Escape closes help, settings and recent files.
pub open spec fn after_escape(p: PanelsView, k: Keys) -> PanelsView {
    if k.escape {
        PanelsView { show_help: false, show_settings: false, show_recent: false, ..p }
    } else {
        p
    }
}

/// Ctrl+, toggles the settings.
pub open spec fn after_settings(p: PanelsView, k: Keys) -> PanelsView {
    if k.settings {
        PanelsView { show_settings: !p.show_settings, ..p }
    } else {
        p
    }
}

/// Ctrl+R closes the recent files, or opens them afresh.
pub open spec fn after_recent(p: PanelsView, k: Keys) -> PanelsView {
    if k.recent {
        if p.show_recent {
            PanelsView { show_recent: false, ..p }
        } else {
            opened_recent(p)
        }
    } else {
        p
    }
}

/// Ctrl+G closes the TOC window, or opens it afresh.
pub open spec fn after_toc(p: PanelsView, k: Keys) -> PanelsView {
    if k.toc {
        if p.show_toc_window {
            PanelsView { show_toc_window: false, ..p }
        } else {
            opened_toc(p)
        }
    } else {
        p
    }
}

/// Ctrl+Shift+C toggles the conversation panel, a configuration change.
pub open spec fn after_conversation(p: PanelsView, k: Keys) -> PanelsView {
    if k.conversation {
        PanelsView { show_conversation: !p.show_conversation, config_dirty: true, ..p }
    } else {
        p
    }
}

/// The arrows move the selection of the open recent-files list: down first,
/// then up.
pub open spec fn after_recent_arrows(p: PanelsView, k: Keys) -> PanelsView {
    if p.show_recent {
        let a = if k.down {
            PanelsView { recent_selection: step_down(p.recent_selection), recent_scroll_to_sel: true, ..p }
        } else {
            p
        };
        if k.up {
            PanelsView { recent_selection: step_up(a.recent_selection), recent_scroll_to_sel: true, ..a }
        } else {
            a
        }
    } else {
        p
    }
}

/// The arrows move the selection of the open TOC window: down first, then
/// up.
pub open spec fn after_toc_arrows(p: PanelsView, k: Keys) -> PanelsView {
    if p.show_toc_window {
        let a = if k.down {
            PanelsView {
                toc_window_selection: step_down(p.toc_window_selection),
                toc_window_scroll_to_sel: true,
                ..p
            }
        } else {
            p
        };
        if k.up {
            PanelsView { toc_window_selection: step_up(a.toc_window_selection), toc_window_scroll_to_sel: true, ..a }
        } else {
            a
        }
    } else {
        p
    }
}

/// The panels after a frame's shortcuts, taken in this order: Escape,
/// Ctrl+, (settings), Ctrl+R (recent files), Ctrl+G (TOC window),
/// Ctrl+Shift+C (conversation panel), then the arrows in the recent files
/// and in the TOC window. Also whether a file is to be picked (Ctrl+O).
pub open spec fn spec_on_keys(p0: PanelsView, k: Keys) -> (PanelsView, bool) {
    let p1 = after_escape(p0, k);
    let p2 = after_settings(p1, k);
    let p3 = after_recent(p2, k);
    let p4 = after_toc(p3, k);
    let p5 = after_conversation(p4, k);
    let p6 = after_recent_arrows(p5, k);
    (after_toc_arrows(p6, k), k.open)
}

impl Panels {
    /// Opens the recent-files dialog and focuses its search field.
    pub fn open_recent_files(&mut self)
        ensures
            final(self)@ == opened_recent(old(self)@),
    {
        self.show_recent = true;
        self.recent_search = String::new();
        self.recent_selection = 0;
        self.recent_needs_focus = true;
        self.recent_scroll_to_sel = false;
    }

    /// Opens the TOC window and focuses its search field.
    pub fn open_toc_window(&mut self)
        ensures
            final(self)@ == opened_toc(old(self)@),
    {
        self.show_toc_window = true;
        self.toc_window_search = String::new();
        self.toc_window_selection = 0;
        self.toc_window_needs_focus = true;
        self.toc_window_scroll_to_sel = false;
    }

    fn escape(&mut self, keys: Keys)
        ensures
            final(self)@ == after_escape(old(self)@, keys),
    {
        if keys.escape {
            self.show_help = false;
            self.show_settings = false;
            self.show_recent = false;
        }
    }

    fn toggle_settings(&mut self, keys: Keys)
        ensures
            final(self)@ == after_settings(old(self)@, keys),
    {
        if keys.settings {
            self.show_settings = !self.show_settings;
        }
    }

    fn toggle_recent(&mut self, keys: Keys)
        ensures
            final(self)@ == after_recent(old(self)@, keys),
    {
        if keys.recent {
            if self.show_recent {
                self.show_recent = false;
            } else {
                self.open_recent_files();
            }
        }
    }

    fn toggle_toc(&mut self, keys: Keys)
        ensures
            final(self)@ == after_toc(old(self)@, keys),
    {
        if keys.toc {
            if self.show_toc_window {
                self.show_toc_window = false;
            } else {
                self.open_toc_window();
            }
        }
    }

    fn toggle_conversation(&mut self, keys: Keys)
        ensures
            final(self)@ == after_conversation(old(self)@, keys),
    {
        if keys.conversation {
            self.show_conversation = !self.show_conversation;
            self.config_dirty = true;
        }
    }

    fn move_in_recent(&mut self, keys: Keys)
        ensures
            final(self)@ == after_recent_arrows(old(self)@, keys),
    {
        if self.show_recent {
            if keys.down {
                self.recent_selection = self.recent_selection.saturating_add(1);
                self.recent_scroll_to_sel = true;
            }
            if keys.up {
                self.recent_selection = self.recent_selection.saturating_sub(1);
                self.recent_scroll_to_sel = true;
            }
        }
    }

    fn move_in_toc(&mut self, keys: Keys)
        ensures
            final(self)@ == after_toc_arrows(old(self)@, keys),
    {
        if self.show_toc_window {
            if keys.down {
                self.toc_window_selection = self.toc_window_selection.saturating_add(1);
                self.toc_window_scroll_to_sel = true;
            }
            if keys.up {
                self.toc_window_selection = self.toc_window_selection.saturating_sub(1);
                self.toc_window_scroll_to_sel = true;
            }
        }
    }

    /// Applies a frame's shortcuts; returns whether a file is to be picked.
    pub fn on_keys(&mut self, keys: Keys) -> (open_file: bool)
        ensures
            (final(self)@, open_file) == spec_on_keys(old(self)@, keys),
    {
        self.escape(keys);
        self.toggle_settings(keys);
        self.toggle_recent(keys);
        self.toggle_toc(keys);
        self.toggle_conversation(keys);
        self.move_in_recent(keys);
        self.move_in_toc(keys);
        keys.open
    }
}

} // verus!
