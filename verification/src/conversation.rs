//! Messages of the conversation kept beside a book, and the file name the
//! conversation is saved under.

use vstd::prelude::*;
use chrono::TimeZone;
use crate::paths::{is_portable_path, last_piece, stem_of_name};
use crate::text::{chars_of, decimal, decimal_of, extend, is_part_of, string_of};
use crate::toc::{is_alphanumeric, unicode_alnum};

verus! {

/// A message of the conversation about a book.
#[derive(Debug, Clone)]
pub struct ConversationMessage {
    pub id: String,
    pub text: String,
    pub is_highlight: bool,
    pub chapter_idx: usize,
    pub timestamp: u64,
    pub is_me_message: bool,
}

/// The milliseconds since the Unix epoch now (zero when the clock is set
/// before it). Nothing is stated of the value: it is the time.
#[verifier::external_body]
fn now_millis() -> (r: u128) {
    std::time::SystemTime::now().duration_since(std::time::UNIX_EPOCH).unwrap_or_default().as_millis()
}

/// The seconds since the Unix epoch now (zero when the clock is set before
/// it). Nothing is stated of the value: it is the time.
#[verifier::external_body]
fn now_secs() -> (r: u64) {
    std::time::SystemTime::now().duration_since(std::time::UNIX_EPOCH).unwrap_or_default().as_secs()
}

/// The last Unix timestamp, in seconds, before 9999-01-01 00:00 UTC: up to
/// it the local year, shifted by any time-zone offset, has four digits.
pub open spec fn last_four_digit_year_secs() -> int {
    253_370_764_799
}

/// Text of the form `dd/mm/YYYY - HH:MM`: eighteen characters, digits but
/// for the separators.
pub open spec fn is_day_time_text(s: Seq<char>) -> bool {
    &&& s.len() == 18
    &&& s[2] == '/' && s[5] == '/'
    &&& s[10] == ' ' && s[11] == '-' && s[12] == ' '
    &&& s[15] == ':'
    &&& forall|i: int|
        0 <= i < 18 && i != 2 && i != 5 && i != 10 && i != 11 && i != 12 && i != 15 ==> '0' <= #[trigger] s[i]
            <= '9'
}

/// The decimal digit `d` (0 to 9).
pub open spec fn digit(d: int) -> char {
    (48 + d) as char
}

/// `n` (0 to 99) in two digits.
pub open spec fn two_digits(n: int) -> Seq<char> {
    seq![digit(n / 10), digit(n % 10)]
}

/// `n` (0 to 9999) in four digits.
pub open spec fn four_digits(n: int) -> Seq<char> {
    seq![digit(n / 1000), digit((n / 100) % 10), digit((n / 10) % 10), digit(n % 10)]
}

/// The year, month and day of the proleptic Gregorian calendar that lie
/// `days` days after 1970-01-01 (the usual days-to-civil computation on
/// 400-year eras of 146097 days, each starting on a 1 March).
pub open spec fn civil_from_days(days: int) -> (int, int, int) {
    let z = days + 719468;
    let era = z / 146097;
    let doe = z - era * 146097;
    let yoe = (doe - doe / 1460 + doe / 36524 - doe / 146096) / 365;
    let doy = doe - (365 * yoe + yoe / 4 - yoe / 100);
    let mp = (5 * doy + 2) / 153;
    let d = doy - (153 * mp + 2) / 5 + 1;
    let m = if mp < 10 {
        mp + 3
    } else {
        mp - 9
    };
    let y = yoe + era * 400 + if m <= 2 {
        1int
    } else {
        0int
    };
    (y, m, d)
}

/// The date and time `s` seconds after 1970-01-01 00:00, written
/// `dd/mm/YYYY - HH:MM`.
pub open spec fn utc_day_time_text(s: int) -> Seq<char> {
    let (y, m, d) = civil_from_days(s / 86400);
    let t = s % 86400;
    two_digits(d) + seq!['/'] + two_digits(m) + seq!['/'] + four_digits(y) + seq![' ', '-', ' '] + two_digits(
        t / 3600,
    ) + seq![':'] + two_digits((t % 3600) / 60)
}

/// `t` is the date and time of the Unix timestamp `secs` in some time zone:
/// shifted by an offset of less than a day either way.
pub open spec fn is_local_text_of(t: Seq<char>, secs: int) -> bool {
    exists|off: int| -86400 < off < 86400 && t == #[trigger] utc_day_time_text(secs + off)
}

/// The local date and time of a Unix timestamp as `dd/mm/YYYY - HH:MM`,
/// through `chrono::Local::timestamp_opt` and `format`. In chrono's source
/// `timestamp_opt` gives a single local time whenever the timestamp lies in
/// its range (years up to 262142); `Local`'s offset is a `FixedOffset`,
/// which `east_opt` only builds strictly within a day either way; and `%d`,
/// `%m`, `%H`, `%M` are two digits and `%Y` four for the years 0 to 9999. So a
/// timestamp from the epoch to the end of year 9998 gives the text of that
/// moment shifted by less than a day. Which offset applies is not stated:
/// it is the machine's time zone.
#[verifier::external_body]
fn local_day_time(secs: i64) -> (r: Option<String>)
    ensures
        0 <= secs <= last_four_digit_year_secs() ==> r is Some && is_day_time_text(r.unwrap()@),
        0 <= secs <= last_four_digit_year_secs() ==> r is Some && is_local_text_of(r.unwrap()@, secs as int),
{
    match chrono::Local.timestamp_opt(secs, 0) {
        chrono::LocalResult::Single(dt) => Some(dt.format("%d/%m/%Y - %H:%M").to_string()),
        _ => None,
    }
}

impl ConversationMessage {
    /// A message made at the given time: its id is the time in
    /// milliseconds, its timestamp the time in seconds.
    pub fn new_at(text: String, is_highlight: bool, chapter_idx: usize, millis: u128, secs: u64) -> (r: Self)
        ensures
            r.id@ == decimal(millis as nat),
            r.text@ == text@,
            r.is_highlight == is_highlight,
            r.chapter_idx == chapter_idx,
            r.timestamp == secs,
            !r.is_me_message,
    {
        let id = string_of(&decimal_of(millis));
        ConversationMessage { id, text, is_highlight, chapter_idx, timestamp: secs, is_me_message: false }
    }

    /// A message made now.
    pub fn new(text: String, is_highlight: bool, chapter_idx: usize) -> (r: Self)
        ensures
            exists|m: nat| r.id@ == decimal(m),
            r.text@ == text@,
            r.is_highlight == is_highlight,
            r.chapter_idx == chapter_idx,
            !r.is_me_message,
    {
        let millis = now_millis();
        let secs = now_secs();
        let r = Self::new_at(text, is_highlight, chapter_idx, millis, secs);
        assert(r.id@ == decimal(millis as nat));
        r
    }

    /// A message of the reader's own, made now.
    pub fn new_me(text: String, chapter_idx: usize) -> (r: Self)
        ensures
            exists|m: nat| r.id@ == decimal(m),
            r.text@ == text@,
            !r.is_highlight,
            r.chapter_idx == chapter_idx,
            r.is_me_message,
    {
        let mut msg = Self::new(text, false, chapter_idx);
        msg.is_me_message = true;
        msg
    }

    /// A message in the author's voice, made now.
    pub fn new_author(text: String, chapter_idx: usize) -> (r: Self)
        ensures
            exists|m: nat| r.id@ == decimal(m),
            r.text@ == text@,
            !r.is_highlight,
            r.chapter_idx == chapter_idx,
            !r.is_me_message,
    {
        Self::new(text, false, chapter_idx)
    }

    /// The local date and time of the message as `dd/mm/YYYY - HH:MM`, or
    /// nothing for a message without a timestamp.
    pub fn formatted_timestamp(&self) -> (r: Option<String>)
        ensures
            self.timestamp == 0 ==> r is None,
            0 < self.timestamp <= last_four_digit_year_secs() ==> (r matches Some(t) && is_day_time_text(t@)
                && is_local_text_of(t@, self.timestamp as int)),
    {
        if self.timestamp == 0 {
            return None;
        }
        local_day_time(self.timestamp as i64)
    }
}

/// `std::path::Path::file_stem`, decoded leniently. What it gives depends on
/// the platform's path syntax (on Windows `\` also separates components and
/// `C:` starts a prefix), so the contract states what holds on every
/// platform: a stem is a part of the path, and for a path both read alike
/// (`is_portable_path`) the file name is its last `/`-separated piece and
/// the stem is that name cut as the documentation says (`stem_of_name`).
#[verifier::external_body]
fn file_stem_of(p: &str) -> (r: Option<String>)
    ensures
        r is Some ==> is_part_of(r.unwrap()@, p@),
        is_portable_path(p@) ==> r is Some && r.unwrap()@ == stem_of_name(last_piece(p@)),
{
    std::path::Path::new(p).file_stem().map(|n| n.to_string_lossy().into_owned())
}

/// A character kept in a file name: alphanumerics, `-` and `_` stay, any
/// other becomes `_`.
pub open spec fn safe_char(c: char) -> char {
    let alnum = if (c as u32) < 128 {
        crate::text::is_alnum(c)
    } else {
        unicode_alnum(c)
    };
    if alnum || c == '-' || c == '_' {
        c
    } else {
        '_'
    }
}

/// The file name a conversation is saved under for a book whose file stem
/// is `stem`: the stem (`unknown` without one) made safe, then `.json`.
pub open spec fn spec_filename_from_stem(stem: Option<Seq<char>>) -> Seq<char> {
    let name = match stem {
        Some(s) => s,
        None => "unknown"@,
    };
    name.map_values(|c: char| safe_char(c)) + ".json"@
}

/// The file name for a book's conversation, from the book's file stem.
pub fn filename_from_stem(stem: Option<String>) -> (r: String)
    ensures
        r@ == spec_filename_from_stem(crate::types::opt_view(stem)),
{
    let name = match stem {
        Some(s) => s,
        None => "unknown".to_owned(),
    };
    let cs = chars_of(name.as_str());
    let mut out: Vec<char> = Vec::new();
    let mut i: usize = 0;
    while i < cs.len()
        invariant
            0 <= i <= cs.len(),
            out@ == cs@.take(i as int).map_values(|c: char| safe_char(c)),
        decreases cs.len() - i,
    {
        let c = cs[i];
        let k = if is_alphanumeric(c) || c == '-' || c == '_' {
            c
        } else {
            '_'
        };
        out.push(k);
        assert(cs@.take(i + 1).map_values(|c: char| safe_char(c)) =~= cs@.take(i as int).map_values(
            |c: char| safe_char(c),
        ).push(safe_char(c)));
        i += 1;
    }
    assert(cs@.take(i as int) =~= cs@);
    extend(&mut out, &chars_of(".json"));
    string_of(&out)
}

/// The file name a book's conversation is saved under: the one
/// `filename_from_stem` gives for the book's file stem as the platform reads
/// it.
pub fn conversation_filename(book_path: &str) -> (r: String)
    ensures
        exists|stem: Option<Seq<char>>|
            (stem matches Some(n) ==> is_part_of(n, book_path@)) && r@ == #[trigger] spec_filename_from_stem(stem),
        is_portable_path(book_path@) ==> r@ == spec_filename_from_stem(
            Some(stem_of_name(last_piece(book_path@))),
        ),
{
    let stem = file_stem_of(book_path);
    let ghost seen = crate::types::opt_view(stem);
    let r = filename_from_stem(stem);
    assert(seen matches Some(n) ==> is_part_of(n, book_path@));
    r
}

} // verus!
