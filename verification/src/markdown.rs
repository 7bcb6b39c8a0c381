//! Post-processing of the Markdown that a chapter's HTML converts to:
//! stripping raw HTML fragments, per-line text healing, rewriting image and
//! link targets, and trimming leading blank lines.

use vstd::prelude::*;
use crate::repair::{fix_spaced_chars, remove_definition_separators, spec_fix_spaced_chars, spec_remove_definition_separators};
use crate::paths::{resolve_path, spec_resolve_path};
use crate::text::{find_char, find_char_exec, ascii_upper, ascii_upper_char, chars_of, extend, extend_lit, extend_range, string_of_range, is_alpha, is_digit, is_ws, is_whitespace, lemma_skip_ws, skip_ws, skip_ws_exec, starts_with, string_of, starts_with_exec, sub_chars, trim, trim_chars, trim_end, trim_end_chars, trim_start, trim_start_chars, views};

verus! {

// ─── Raw HTML ────────────────────────────────────────────────────────────

/// A character that makes a `<` open a tag: an ASCII letter, `/` or `!`.
pub open spec fn opens_tag(c: char) -> bool {
    is_alpha(c) || c == '/' || c == '!'
}

pub open spec fn is_quote(c: char) -> bool {
    c == '"' || c == '\''
}

/// Scanning state of `strip_raw_html`: outside a tag, or inside one (with
/// whether a quoted attribute value is open).
pub enum TagScan {
    Text,
    Tag { quoted: bool },
}

/// The Markdown from index `i` on with every `<...>` tag removed: a `<`
/// followed by a letter, `/` or `!` opens a tag, which ends at the first `>`
/// outside quotes (or at the end of the text); any other `<` is kept.
pub open spec fn strip_tags_from(s: Seq<char>, i: int, st: TagScan) -> Seq<char>
    decreases s.len() - i,
{
    if i < 0 || i >= s.len() {
        seq![]
    } else {
        match st {
            TagScan::Text => {
                if s[i] == '<' {
                    if i + 1 < s.len() && opens_tag(s[i + 1]) {
                        strip_tags_from(s, i + 1, TagScan::Tag { quoted: false })
                    } else {
                        seq!['<'] + strip_tags_from(s, i + 1, TagScan::Text)
                    }
                } else {
                    seq![s[i]] + strip_tags_from(s, i + 1, TagScan::Text)
                }
            },
            TagScan::Tag { quoted } => {
                let q = if is_quote(s[i]) {
                    !quoted
                } else {
                    quoted
                };
                if s[i] == '>' && !q {
                    strip_tags_from(s, i + 1, TagScan::Text)
                } else {
                    strip_tags_from(s, i + 1, TagScan::Tag { quoted: q })
                }
            },
        }
    }
}

pub open spec fn spec_strip_raw_html(s: Seq<char>) -> Seq<char> {
    strip_tags_from(s, 0, TagScan::Text)
}

/// Removes the raw `<...>` HTML fragments that HTML-to-Markdown conversion
/// leaves in place (such as id-only anchors).
pub fn strip_raw_html(markdown: &str) -> (r: String)
    ensures
        r@ == spec_strip_raw_html(markdown@),
{
    let s = chars_of(markdown);
    let mut out: Vec<char> = Vec::new();
    let mut in_tag = false;
    let mut quoted = false;
    let mut i: usize = 0;
    assert(out@ =~= Seq::<char>::empty());
    while i < s.len()
        invariant
            0 <= i <= s.len(),
            s@ == markdown@,
            spec_strip_raw_html(s@) == out@ + strip_tags_from(
                s@,
                i as int,
                if in_tag {
                    TagScan::Tag { quoted }
                } else {
                    TagScan::Text
                },
            ),
        decreases s.len() - i,
    {
        let c = s[i];
        let ghost before = out@;
        if !in_tag {
            if c == '<' {
                let n = i + 1;
                if n < s.len() && (('A' <= s[n] && s[n] <= 'Z') || ('a' <= s[n] && s[n] <= 'z')
                    || s[n] == '/' || s[n] == '!') {
                    in_tag = true;
                    quoted = false;
                } else {
                    out.push('<');
                    assert(out@ =~= before + seq!['<']);
                }
            } else {
                out.push(c);
                assert(out@ =~= before + seq![c]);
            }
        } else {
            if c == '"' || c == '\'' {
                quoted = !quoted;
            }
            if c == '>' && !quoted {
                in_tag = false;
            }
        }
        i += 1;
    }
    string_of(&out)
}

// ─── Leading blank lines ─────────────────────────────────────────────────

/// Index just after the last `\n` before `p`; 0 when there is none.
pub open spec fn after_last_newline(s: Seq<char>, p: int) -> int
    decreases p,
{
    if p <= 0 || p > s.len() {
        0
    } else if s[p - 1] == '\n' {
        p
    } else {
        after_last_newline(s, p - 1)
    }
}

/// The Markdown without the blank (white-space only) lines before its first
/// non-blank character.
pub open spec fn spec_trim_leading_blank_lines(s: Seq<char>) -> Seq<char> {
    s.skip(after_last_newline(s, skip_ws(s, 0)))
}

/// Removes the leading blank, white-space-only or no-break-space lines.
pub fn trim_leading_blank_lines(markdown: &str) -> (r: String)
    ensures
        r@ == spec_trim_leading_blank_lines(markdown@),
{
    let s = chars_of(markdown);
    let mut start: usize = 0;
    let mut i: usize = 0;
    while i < s.len()
        invariant
            0 <= start <= i <= s.len(),
            s@ == markdown@,
            forall|k: int| 0 <= k < i ==> is_ws(#[trigger] s@[k]),
            start == after_last_newline(s@, i as int),
        ensures
            0 <= start <= i <= s.len(),
            forall|k: int| 0 <= k < i ==> is_ws(#[trigger] s@[k]),
            start == after_last_newline(s@, i as int),
            i < s.len() ==> !is_ws(s@[i as int]),
        decreases s.len() - i,
    {
        let c = s[i];
        if c == '\n' {
            start = i + 1;
        } else if is_whitespace(c) || c == '\u{a0}' {
        } else {
            break;
        }
        i += 1;
    }
    proof {
        lemma_skip_ws(s@, 0);
        let p = skip_ws(s@, 0);
        if i < s.len() {
            assert(!is_ws(s@[i as int]));
            assert(p == i as int) by {
                if p < i {
                    assert(!is_ws(s@[p]));
                }
                if p > i {
                    assert(is_ws(s@[i as int]));
                }
            }
        } else {
            assert(p == i as int) by {
                if p < i {
                    assert(!is_ws(s@[p]));
                }
            }
        }
    }
    let r = sub_chars(&s, start, s.len());
    string_of(&r)
}

// ─── Healing ─────────────────────────────────────────────────────────────

/// The lines of `s` (`str::lines`): pieces ending at `\n` (with a `\r`
/// just before it removed) and a last piece without a line end when it is
/// not empty; scanned from `i` with the current line `cur`.
pub open spec fn lines_from(s: Seq<char>, i: int, cur: Seq<char>, acc: Seq<Seq<char>>) -> Seq<Seq<char>>
    decreases s.len() - i,
{
    if i < 0 || i >= s.len() {
        if cur.len() > 0 {
            acc.push(cur)
        } else {
            acc
        }
    } else if s[i] == '\n' {
        let line = if cur.len() > 0 && cur.last() == '\r' {
            cur.drop_last()
        } else {
            cur
        };
        lines_from(s, i + 1, seq![], acc.push(line))
    } else {
        lines_from(s, i + 1, cur.push(s[i]), acc)
    }
}

pub open spec fn lines(s: Seq<char>) -> Seq<Seq<char>> {
    lines_from(s, 0, seq![], seq![])
}

/// The GitHub alert kinds whose `[!KIND]` token is dropped from quotes.
pub open spec fn is_alert_ident(id: Seq<char>) -> bool {
    ||| id == seq!['N', 'O', 'T', 'E']
    ||| id == seq!['T', 'I', 'P']
    ||| id == seq!['I', 'M', 'P', 'O', 'R', 'T', 'A', 'N', 'T']
    ||| id == seq!['W', 'A', 'R', 'N', 'I', 'N', 'G']
    ||| id == seq!['C', 'A', 'U', 'T', 'I', 'O', 'N']
}

/// For a line with a `>` followed (after white space) by an alert token
/// `[!KIND]` of a known kind (in any letter case): `> ` and the rest of the
/// line after the token, without leading white space. `None` for other lines.
pub open spec fn spec_strip_alert_token(line: Seq<char>) -> Option<Seq<char>> {
    let k = find_char(line, '>', 0);
    if k >= line.len() {
        None
    } else {
        let rest = trim_start(line.skip(k + 1));
        if !starts_with(rest, seq!['[', '!']) {
            None
        } else {
            let e = find_char(rest, ']', 0);
            if e >= rest.len() || e < 2 {
                None
            } else if is_alert_ident(ascii_upper(rest.subrange(2, e))) {
                Some(seq!['>', ' '] + trim_start(rest.skip(e + 1)))
            } else {
                None
            }
        }
    }
}

/// Index of the first character at or after `i` that is not `c`.
pub open spec fn run_of(s: Seq<char>, c: char, i: int) -> int
    decreases s.len() - i,
{
    if 0 <= i < s.len() && s[i] == c {
        run_of(s, c, i + 1)
    } else {
        i
    }
}

pub proof fn lemma_run_of(s: Seq<char>, c: char, i: int)
    requires
        0 <= i <= s.len(),
    ensures
        i <= run_of(s, c, i) <= s.len(),
        forall|k: int| i <= k < run_of(s, c, i) ==> #[trigger] s[k] == c,
        run_of(s, c, i) < s.len() ==> s[run_of(s, c, i)] != c,
    decreases s.len() - i,
{
    if i < s.len() && s[i] == c {
        lemma_run_of(s, c, i + 1);
    }
}

/// Index just after the last character before `j` that is not `c`.
pub open spec fn back_run_of(s: Seq<char>, c: char, j: int) -> int
    decreases j,
{
    if 0 < j <= s.len() && s[j - 1] == c {
        back_run_of(s, c, j - 1)
    } else {
        j
    }
}

pub proof fn lemma_back_run_of(s: Seq<char>, c: char, j: int)
    requires
        0 <= j <= s.len(),
    ensures
        0 <= back_run_of(s, c, j) <= j,
        forall|k: int| back_run_of(s, c, j) <= k < j ==> #[trigger] s[k] == c,
        back_run_of(s, c, j) > 0 ==> s[back_run_of(s, c, j) - 1] != c,
    decreases j,
{
    if 0 < j && s[j - 1] == c {
        lemma_back_run_of(s, c, j - 1);
    }
}

/// An ATX heading line: one to six `#`, then a space or the end of the line.
pub open spec fn spec_is_heading_line(line: Seq<char>) -> bool {
    let h = run_of(line, '#', 0);
    0 < h <= 6 && (h == line.len() || line[h] == ' ')
}

/// Repeatedly removes a leading run of four or more `*` and the white space
/// after it.
pub open spec fn strip_leading_stars(c: Seq<char>) -> Seq<char>
    decreases c.len(),
{
    let k = run_of(c, '*', 0);
    if 4 <= k <= c.len() {
        let next = trim_start(c.skip(k));
        if next.len() < c.len() {
            strip_leading_stars(next)
        } else {
            c
        }
    } else {
        c
    }
}

/// Removes a trailing run of four or more `*`.
pub open spec fn strip_trailing_stars(c: Seq<char>) -> Seq<char> {
    let b = back_run_of(c, '*', c.len() as int);
    if c.len() - b >= 4 {
        c.take(b)
    } else {
        c
    }
}

/// A heading line with runs of four or more asterisks removed from the start
/// and end of its content; the content (if any) follows the `#`s after one
/// space, without trailing white space.
pub open spec fn spec_trim_heading_asterisks(line: Seq<char>) -> Seq<char> {
    let sp = find_char(line, ' ', 0);
    let hashes = if sp < line.len() {
        line.take(sp)
    } else {
        line
    };
    let content = if sp < line.len() {
        trim_start(line.skip(sp + 1))
    } else {
        seq![]
    };
    let c = strip_trailing_stars(strip_leading_stars(content));
    if c.len() > 0 {
        hashes + seq![' '] + trim_end(c)
    } else {
        hashes
    }
}

/// Characters that open Markdown block syntax (or a list number) at the
/// start of a line.
pub open spec fn is_block_marker(c: char) -> bool {
    is_digit(c) || c == ' ' || c == '#' || c == '>' || c == '*' || c == '+' || c == '-' || c
        == '`' || c == '|' || c == '~' || c == '[' || c == '{' || c == '<'
}

/// A line of plain prose: not blank and not starting with block syntax.
pub open spec fn spec_looks_like_prose(line: Seq<char>) -> bool {
    let t = trim_start(line);
    t.len() > 0 && !is_block_marker(t[0])
}

/// One healed line (without its line end).
pub open spec fn heal_line(line: Seq<char>) -> Seq<char> {
    match spec_strip_alert_token(line) {
        Some(c) => c,
        None => {
            if spec_is_heading_line(line) {
                spec_trim_heading_asterisks(line)
            } else if spec_looks_like_prose(line) {
                spec_fix_spaced_chars(spec_remove_definition_separators(line))
            } else {
                line
            }
        },
    }
}

/// The healed lines, each followed by `\n`.
pub open spec fn heal_lines(ls: Seq<Seq<char>>) -> Seq<char>
    decreases ls.len(),
{
    if ls.len() == 0 {
        seq![]
    } else {
        heal_lines(ls.drop_last()) + heal_line(ls.last()) + seq!['\n']
    }
}

pub open spec fn spec_heal_markdown(s: Seq<char>) -> Seq<char> {
    heal_lines(lines(s))
}

/// The lines of `s`.
pub fn split_lines(s: &Vec<char>) -> (r: Vec<Vec<char>>)
    ensures
        views(r@) == lines(s@),
{
    let mut acc: Vec<Vec<char>> = Vec::new();
    let mut cur: Vec<char> = Vec::new();
    let mut i: usize = 0;
    assert(views(acc@) =~= Seq::<Seq<char>>::empty());
    assert(cur@ =~= Seq::<char>::empty());
    while i < s.len()
        invariant
            0 <= i <= s.len(),
            lines(s@) == lines_from(s@, i as int, cur@, views(acc@)),
        decreases s.len() - i,
    {
        if s[i] == '\n' {
            let ghost old_acc = views(acc@);
            let mut line = cur;
            let ghost lv = line@;
            if line.len() > 0 && line[line.len() - 1] == '\r' {
                line.pop();
                assert(line@ =~= lv.drop_last());
            }
            acc.push(line);
            assert(views(acc@) =~= old_acc.push(line@));
            cur = Vec::new();
            assert(cur@ =~= Seq::<char>::empty());
        } else {
            cur.push(s[i]);
        }
        i += 1;
    }
    if cur.len() > 0 {
        let ghost old_acc = views(acc@);
        let w = cur;
        acc.push(w);
        assert(views(acc@) =~= old_acc.push(w@));
    }
    acc
}

/// Whether an (uppercase) identifier is a known alert kind.
fn is_alert_ident_exec(id: &Vec<char>) -> (b: bool)
    ensures
        b == is_alert_ident(id@),
{
    let note = ['N', 'O', 'T', 'E'];
    let tip = ['T', 'I', 'P'];
    let important = ['I', 'M', 'P', 'O', 'R', 'T', 'A', 'N', 'T'];
    let warning = ['W', 'A', 'R', 'N', 'I', 'N', 'G'];
    let caution = ['C', 'A', 'U', 'T', 'I', 'O', 'N'];
    assert(note@ =~= seq!['N', 'O', 'T', 'E']);
    assert(tip@ =~= seq!['T', 'I', 'P']);
    assert(important@ =~= seq!['I', 'M', 'P', 'O', 'R', 'T', 'A', 'N', 'T']);
    assert(warning@ =~= seq!['W', 'A', 'R', 'N', 'I', 'N', 'G']);
    assert(caution@ =~= seq!['C', 'A', 'U', 'T', 'I', 'O', 'N']);
    equals_lit(id, &note) || equals_lit(id, &tip) || equals_lit(id, &important) || equals_lit(
        id,
        &warning,
    ) || equals_lit(id, &caution)
}

/// Whether `v` holds exactly the characters of `p`.
pub fn equals_lit(v: &Vec<char>, p: &[char]) -> (b: bool)
    ensures
        b == (v@ == p@),
{
    if v.len() != p.len() {
        return false;
    }
    let mut k: usize = 0;
    while k < v.len()
        invariant
            v.len() == p.len(),
            0 <= k <= v.len(),
            forall|m: int| 0 <= m < k ==> v@[m] == p@[m],
        decreases v.len() - k,
    {
        if v[k] != p[k] {
            return false;
        }
        k += 1;
    }
    assert(v@ =~= p@);
    true
}

/// Drops a GitHub alert token (`> [!WARNING]`) from a quote line.
pub fn strip_alert_token(line: &Vec<char>) -> (r: Option<Vec<char>>)
    ensures
        r matches Some(v) ==> spec_strip_alert_token(line@) == Some(v@),
        r is None ==> spec_strip_alert_token(line@) is None,
{
    let k = find_char_exec(line, '>', 0);
    if k >= line.len() {
        return None;
    }
    let after = sub_chars(line, k + 1, line.len());
    assert(after@ =~= line@.skip(k + 1));
    let rest = trim_start_chars(&after);
    if !(rest.len() >= 2 && rest[0] == '[' && rest[1] == '!') {
        proof {
            if starts_with(rest@, seq!['[', '!']) {
                assert(rest@.subrange(0, 2)[0] == '[' && rest@.subrange(0, 2)[1] == '!');
            }
        }
        return None;
    }
    assert(rest@.subrange(0, 2) =~= seq!['[', '!']);
    let e = find_char_exec(&rest, ']', 0);
    if e >= rest.len() || e < 2 {
        return None;
    }
    let raw = sub_chars(&rest, 2, e);
    let mut ident: Vec<char> = Vec::new();
    let mut m: usize = 0;
    while m < raw.len()
        invariant
            0 <= m <= raw.len(),
            ident@ == ascii_upper(raw@.take(m as int)),
        decreases raw.len() - m,
    {
        ident.push(ascii_upper_char(raw[m]));
        assert(ident@ =~= ascii_upper(raw@.take(m + 1)));
        m += 1;
    }
    assert(raw@.take(raw.len() as int) =~= raw@);
    if !is_alert_ident_exec(&ident) {
        return None;
    }
    let tail = sub_chars(&rest, e + 1, rest.len());
    assert(tail@ =~= rest@.skip(e + 1));
    let tail = trim_start_chars(&tail);
    let mut out: Vec<char> = Vec::new();
    out.push('>');
    out.push(' ');
    extend(&mut out, &tail);
    assert(out@ =~= seq!['>', ' '] + tail@);
    Some(out)
}

/// Whether a line is an ATX heading.
pub fn is_heading_line(line: &Vec<char>) -> (b: bool)
    ensures
        b == spec_is_heading_line(line@),
{
    let mut count: usize = 0;
    let mut i: usize = 0;
    while i < line.len()
        invariant
            0 <= i <= line.len(),
            count == i,
            count <= 6,
            forall|k: int| 0 <= k < i ==> #[trigger] line@[k] == '#',
        decreases line.len() - i,
    {
        if line[i] == '#' {
            count += 1;
            if count > 6 {
                proof {
                    lemma_run_of(line@, '#', 0);
                    assert(run_of(line@, '#', 0) > 6) by {
                        let h = run_of(line@, '#', 0);
                        if h <= 6 {
                            assert(line@[h] == '#');
                        }
                    }
                }
                return false;
            }
        } else {
            proof {
                lemma_run_of(line@, '#', 0);
                let h = run_of(line@, '#', 0);
                assert(h == i as int) by {
                    if h < i {
                        assert(line@[h] == '#');
                    }
                    if h > i {
                        assert(line@[i as int] == '#');
                    }
                }
            }
            return count > 0 && line[i] == ' ';
        }
        i += 1;
    }
    proof {
        lemma_run_of(line@, '#', 0);
        let h = run_of(line@, '#', 0);
        assert(h == i as int) by {
            if h < i {
                assert(line@[h] == '#');
            }
        }
    }
    count > 0
}

/// Removes runs of four or more asterisks at the start and end of a
/// heading's content.
pub fn trim_heading_asterisks(line: &Vec<char>) -> (r: Vec<char>)
    ensures
        r@ == spec_trim_heading_asterisks(line@),
{
    let sp = find_char_exec(line, ' ', 0);
    let hashes;
    let mut content: Vec<char>;
    if sp < line.len() {
        hashes = sub_chars(line, 0, sp);
        let after = sub_chars(line, sp + 1, line.len());
        assert(after@ =~= line@.skip(sp + 1));
        content = trim_start_chars(&after);
        assert(hashes@ =~= line@.take(sp as int));
    } else {
        hashes = line.clone();
        content = Vec::new();
        assert(content@ =~= Seq::<char>::empty());
    }
    let ghost c0 = content@;
    loop
        invariant
            strip_leading_stars(c0) == strip_leading_stars(content@),
        ensures
            strip_leading_stars(c0) == content@,
        decreases content@.len(),
    {
        let mut leading: usize = 0;
        while leading < content.len() && content[leading] == '*'
            invariant
                0 <= leading <= content.len(),
                run_of(content@, '*', 0) == run_of(content@, '*', leading as int),
            decreases content.len() - leading,
        {
            leading += 1;
        }
        if leading >= 4 {
            let rest = sub_chars(&content, leading, content.len());
            assert(rest@ =~= content@.skip(leading as int));
            let next = trim_start_chars(&rest);
            proof {
                lemma_skip_ws(rest@, 0);
            }
            content = next;
        } else {
            break;
        }
    }
    let mut b: usize = content.len();
    while b > 0 && content[b - 1] == '*'
        invariant
            b <= content.len(),
            back_run_of(content@, '*', content.len() as int) == back_run_of(content@, '*', b as int),
        decreases b,
    {
        b -= 1;
    }
    if content.len() - b >= 4 {
        let kept = sub_chars(&content, 0, b);
        assert(kept@ =~= content@.take(b as int));
        content = kept;
    }
    let mut out = hashes;
    if content.len() > 0 {
        out.push(' ');
        let t = trim_end_chars(&content);
        extend(&mut out, &t);
    }
    out
}

/// Whether a line reads as plain prose.
pub fn looks_like_prose(line: &Vec<char>) -> (b: bool)
    ensures
        b == spec_looks_like_prose(line@),
{
    let k = skip_ws_exec(line, 0);
    if k >= line.len() {
        return false;
    }
    let c = line[k];
    !(('0' <= c && c <= '9') || c == ' ' || c == '#' || c == '>' || c == '*' || c == '+' || c
        == '-' || c == '`' || c == '|' || c == '~' || c == '[' || c == '{' || c == '<')
}

/// Per-line text healing that keeps Markdown block syntax intact.
pub fn heal_markdown(markdown: &str) -> (r: String)
    ensures
        r@ == spec_heal_markdown(markdown@),
{
    let s = chars_of(markdown);
    let ls = split_lines(&s);
    let mut out: Vec<char> = Vec::new();
    let mut i: usize = 0;
    assert(out@ =~= heal_lines(views(ls@).take(0)));
    while i < ls.len()
        invariant
            0 <= i <= ls.len(),
            out@ == heal_lines(views(ls@).take(i as int)),
        decreases ls.len() - i,
    {
        let line = &ls[i];
        let healed = match strip_alert_token(line) {
            Some(c) => c,
            None => {
                if is_heading_line(line) {
                    trim_heading_asterisks(line)
                } else if looks_like_prose(line) {
                    let d = remove_definition_separators(line);
                    fix_spaced_chars(&d)
                } else {
                    line.clone()
                }
            },
        };
        let ghost before = out@;
        extend(&mut out, &healed);
        out.push('\n');
        proof {
            let t = views(ls@).take(i + 1);
            assert(t.drop_last() =~= views(ls@).take(i as int));
            assert(t.last() == line@);
            assert(out@ =~= before + heal_line(line@) + seq!['\n']);
        }
        i += 1;
    }
    assert(views(ls@).take(ls.len() as int) =~= views(ls@));
    string_of(&out)
}

// ─── Links and images ────────────────────────────────────────────────────

/// Links whose visible text is longer than this many characters are
/// flattened to plain text.
pub const MAX_LINK_TEXT: usize = 200;

/// Index of the `]` that closes a link label scanned from `j`: the first `]`
/// directly followed by `(` outside quotes; the length when there is none.
pub open spec fn label_end(s: Seq<char>, j: int, quoted: bool) -> int
    decreases s.len() - j,
{
    if j < 0 || j >= s.len() {
        s.len() as int
    } else {
        let q = if is_quote(s[j]) {
            !quoted
        } else {
            quoted
        };
        if !q && s[j] == ']' && j + 1 < s.len() && s[j + 1] == '(' {
            j
        } else {
            label_end(s, j + 1, q)
        }
    }
}

/// Index just after the `)` that balances the parentheses open at `k` (with
/// `depth` of them open); the length when they never balance.
pub open spec fn target_end(s: Seq<char>, k: int, depth: int) -> int
    decreases s.len() - k,
{
    if k < 0 || k >= s.len() || depth <= 0 {
        k
    } else {
        let d = if s[k] == '(' {
            depth + 1
        } else if s[k] == ')' {
            depth - 1
        } else {
            depth
        };
        target_end(s, k + 1, d)
    }
}

/// Index of the first of `hrefs` equal to `x`; the length when none.
pub open spec fn index_of_href(hrefs: Seq<Seq<char>>, x: Seq<char>, m: int) -> int
    decreases hrefs.len() - m,
{
    if m < 0 || m >= hrefs.len() {
        hrefs.len() as int
    } else if hrefs[m] == x {
        m
    } else {
        index_of_href(hrefs, x, m + 1)
    }
}

pub open spec fn lit_http() -> Seq<char> {
    seq!['h', 't', 't', 'p']
}

pub open spec fn lit_data() -> Seq<char> {
    seq!['d', 'a', 't', 'a', ':']
}

pub open spec fn lit_epub() -> Seq<char> {
    seq!['e', 'p', 'u', 'b', ':']
}

pub open spec fn lit_mailto() -> Seq<char> {
    seq!['m', 'a', 'i', 'l', 't', 'o', ':']
}

pub open spec fn lit_epub_scheme() -> Seq<char> {
    seq!['e', 'p', 'u', 'b', ':', '/', '/']
}

/// An image target inside the archive (not `http…`, `data:` or `epub:`).
pub open spec fn is_archive_image(target: Seq<char>) -> bool {
    !starts_with(target, lit_http()) && !starts_with(target, lit_data()) && !starts_with(
        target,
        lit_epub(),
    )
}

/// A link target inside the book (not `http…`, `mailto:` or `data:`).
pub open spec fn is_internal_link(target: Seq<char>) -> bool {
    !starts_with(target, lit_http()) && !starts_with(target, lit_mailto()) && !starts_with(
        target,
        lit_data(),
    )
}

/// The chapter an internal link leads to: the index of the spine href equal
/// to the link's resolved path (without fragment), else `current`.
pub open spec fn link_chapter(
    target: Seq<char>,
    base: Seq<char>,
    hrefs: Seq<Seq<char>>,
    current: usize,
) -> usize {
    let resolved = spec_resolve_path(base, target.take(find_char(target, '#', 0)));
    let m = index_of_href(hrefs, resolved, 0);
    if m < hrefs.len() {
        m as usize
    } else {
        current
    }
}

/// What a link or image's target becomes: archive images are rewritten to
/// `epub://` and their resolved path; anything else is kept.
pub open spec fn new_target(target: Seq<char>, image: bool, base: Seq<char>) -> Seq<char> {
    if image && is_archive_image(target) {
        lit_epub_scheme() + spec_resolve_path(base, target)
    } else {
        target
    }
}

/// The link hook an element contributes: internal links yield their target
/// and chapter; images and external links yield none.
pub open spec fn hook_of(
    target: Seq<char>,
    image: bool,
    base: Seq<char>,
    hrefs: Seq<Seq<char>>,
    current: usize,
) -> Seq<(Seq<char>, usize)> {
    if !image && is_internal_link(target) {
        seq![(target, link_chapter(target, base, hrefs, current))]
    } else {
        seq![]
    }
}

/// The rewritten Markdown and link hooks from index `i` on; `None` when the
/// scan reaches a `](` that ends the text (where the conversion cannot
/// take a target and fails).
pub open spec fn rewrite_from(
    s: Seq<char>,
    base: Seq<char>,
    hrefs: Seq<Seq<char>>,
    current: usize,
    i: int,
) -> Option<(Seq<char>, Seq<(Seq<char>, usize)>)>
    decreases s.len() - i,
{
    if i < 0 || i >= s.len() {
        Some((seq![], seq![]))
    } else {
        let image = s[i] == '!' && i + 1 < s.len() && s[i + 1] == '[';
        let link = !image && s[i] == '[';
        let j = label_end(s, i + 1, false);
        if (image || link) && i + 1 < s.len() && j < s.len() {
            if j + 2 >= s.len() || j < i + 1 {
                None
            } else {
                let k = target_end(s, j + 2, 1);
                if k <= j + 2 || k > s.len() {
                    None
                } else {
                    let target = trim(s.subrange(j + 2, k - 1));
                    let label = s.subrange(i + 1, j);
                    match rewrite_from(s, base, hrefs, current, k) {
                        None => None,
                        Some((o, t)) => {
                            if link && label.len() > MAX_LINK_TEXT {
                                Some((label + o, t))
                            } else {
                                let piece = s.subrange(i, j + 1) + seq!['('] + new_target(
                                    target,
                                    image,
                                    base,
                                ) + seq![')'];
                                Some(
                                    (
                                        piece + o,
                                        hook_of(target, image, base, hrefs, current) + t,
                                    ),
                                )
                            }
                        },
                    }
                }
            }
        } else {
            match rewrite_from(s, base, hrefs, current, i + 1) {
                None => None,
                Some((o, t)) => Some((seq![s[i]] + o, t)),
            }
        }
    }
}

/// Whether the link scan from `i` on runs to the end: no scanned link or
/// image has its `](` at the very end of the text.
pub open spec fn scan_completes(s: Seq<char>, i: int) -> bool
    decreases s.len() - i,
{
    if i < 0 || i >= s.len() {
        true
    } else {
        let image = s[i] == '!' && i + 1 < s.len() && s[i + 1] == '[';
        let link = !image && s[i] == '[';
        let j = label_end(s, i + 1, false);
        if (image || link) && i + 1 < s.len() && j < s.len() {
            if j + 2 >= s.len() || j < i + 1 {
                false
            } else {
                let k = target_end(s, j + 2, 1);
                if k <= j + 2 || k > s.len() {
                    false
                } else {
                    scan_completes(s, k)
                }
            }
        } else {
            scan_completes(s, i + 1)
        }
    }
}

pub proof fn lemma_scan_completes(
    s: Seq<char>,
    base: Seq<char>,
    hrefs: Seq<Seq<char>>,
    current: usize,
    i: int,
)
    ensures
        scan_completes(s, i) == (rewrite_from(s, base, hrefs, current, i) is Some),
    decreases s.len() - i,
{
    if 0 <= i < s.len() {
        let image = s[i] == '!' && i + 1 < s.len() && s[i + 1] == '[';
        let link = !image && s[i] == '[';
        let j = label_end(s, i + 1, false);
        if (image || link) && i + 1 < s.len() && j < s.len() {
            if !(j + 2 >= s.len() || j < i + 1) {
                let k = target_end(s, j + 2, 1);
                if !(k <= j + 2 || k > s.len()) {
                    lemma_scan_completes(s, base, hrefs, current, k);
                }
            }
        } else {
            lemma_scan_completes(s, base, hrefs, current, i + 1);
        }
    }
}

pub proof fn lemma_label_end(s: Seq<char>, j: int, q: bool)
    requires
        0 <= j <= s.len(),
    ensures
        j <= label_end(s, j, q) <= s.len(),
    decreases s.len() - j,
{
    if j < s.len() {
        let q2 = if is_quote(s[j]) {
            !q
        } else {
            q
        };
        if !(!q2 && s[j] == ']' && j + 1 < s.len() && s[j + 1] == '(') {
            lemma_label_end(s, j + 1, q2);
        }
    }
}

pub proof fn lemma_target_end(s: Seq<char>, k: int, d: int)
    requires
        0 <= k <= s.len(),
    ensures
        k <= target_end(s, k, d) <= s.len(),
        k < s.len() && d > 0 ==> k < target_end(s, k, d),
    decreases s.len() - k,
{
    if k < s.len() && d > 0 {
        let d2 = if s[k] == '(' {
            d + 1
        } else if s[k] == ')' {
            d - 1
        } else {
            d
        };
        lemma_target_end(s, k + 1, d2);
    }
}

/// The spine hrefs as character sequences.
pub open spec fn href_views(hrefs: Seq<String>) -> Seq<Seq<char>> {
    hrefs.map_values(|h: String| h@)
}

/// The link hooks as character sequences and chapter indexes.
pub open spec fn hook_views(t: Seq<(String, usize)>) -> Seq<(Seq<char>, usize)> {
    t.map_values(|p: (String, usize)| (p.0@, p.1))
}

/// `r` with the output `o` and hooks `t` put before it.
pub open spec fn prefixed(
    o: Seq<char>,
    t: Seq<(Seq<char>, usize)>,
    r: Option<(Seq<char>, Seq<(Seq<char>, usize)>)>,
) -> Option<(Seq<char>, Seq<(Seq<char>, usize)>)> {
    match r {
        None => None,
        Some((o2, t2)) => Some((o + o2, t + t2)),
    }
}

pub open spec fn spec_rewrite_links_and_images(
    markdown: Seq<char>,
    base: Seq<char>,
    hrefs: Seq<Seq<char>>,
    current: usize,
) -> (Seq<char>, Seq<(Seq<char>, usize)>) {
    rewrite_from(markdown, base, hrefs, current, 0)->0
}

/// Index of the spine href equal to `resolved`, or `current`.
fn chapter_of(chapter_hrefs: &[String], resolved: &String, current_index: usize) -> (r: usize)
    ensures
        r == ({
            let m = index_of_href(href_views(chapter_hrefs@), resolved@, 0);
            if m < chapter_hrefs@.len() {
                m as usize
            } else {
                current_index
            }
        }),
{
    let ghost hv = href_views(chapter_hrefs@);
    let mut m: usize = 0;
    while m < chapter_hrefs.len()
        invariant
            0 <= m <= chapter_hrefs.len(),
            hv == href_views(chapter_hrefs@),
            hv.len() == chapter_hrefs@.len(),
            index_of_href(hv, resolved@, 0) == index_of_href(hv, resolved@, m as int),
        decreases chapter_hrefs.len() - m,
    {
        if chapter_hrefs[m] == *resolved {
            assert(hv[m as int] == resolved@);
            return m;
        }
        m += 1;
    }
    current_index
}

/// Rewrites `![alt](src)` image targets to `epub://` resolved archive paths
/// and collects the internal link targets with the chapter each leads to:
/// the index into `chapter_hrefs` of the resolved path, or `current_index`
/// when it is not a spine chapter. Links whose text is longer than
/// `MAX_LINK_TEXT` characters are flattened to their text.
pub fn rewrite_links_and_images(
    markdown: &str,
    base: &str,
    chapter_hrefs: &[String],
    current_index: usize,
) -> (r: (String, Vec<(String, usize)>))
    requires
        scan_completes(markdown@, 0),
    ensures
        (r.0@, hook_views(r.1@)) == spec_rewrite_links_and_images(
            markdown@,
            base@,
            href_views(chapter_hrefs@),
            current_index,
        ),
{
    let s = chars_of(markdown);
    let n = s.len();
    let ghost hv = href_views(chapter_hrefs@);
    let ghost full = rewrite_from(s@, base@, hv, current_index, 0);
    proof {
        lemma_scan_completes(s@, base@, hv, current_index, 0);
    }
    let mut out: Vec<char> = Vec::new();
    let mut targets: Vec<(String, usize)> = Vec::new();
    let mut i: usize = 0;
    assert(out@ =~= Seq::<char>::empty());
    assert(hook_views(targets@) =~= Seq::<(Seq<char>, usize)>::empty());
    assert(prefixed(out@, hook_views(targets@), full) =~= full) by {
        match full {
            None => {},
            Some((o2, t2)) => {
                assert(out@ + o2 =~= o2);
                assert(hook_views(targets@) + t2 =~= t2);
            },
        }
    }
    while i < n
        invariant
            0 <= i <= n,
            n == s.len(),
            s@ == markdown@,
            hv == href_views(chapter_hrefs@),
            full == rewrite_from(s@, base@, hv, current_index, 0),
            full is Some,
            full == prefixed(out@, hook_views(targets@), rewrite_from(s@, base@, hv, current_index, i as int)),
        decreases n - i,
    {
        let ghost o0 = out@;
        let ghost t0 = hook_views(targets@);
        let image = s[i] == '!' && i + 1 < n && s[i + 1] == '[';
        let link = !image && s[i] == '[';
        if (image || link) && i + 1 < n {
            let mut j = i + 1;
            let mut quoted = false;
            loop
                invariant
                    i + 1 <= j <= n,
                    n == s.len(),
                    label_end(s@, i + 1, false) == label_end(s@, j as int, quoted),
                ensures
                    i + 1 <= j <= n,
                    j == label_end(s@, i + 1, false),
                decreases n - j,
            {
                if j >= n {
                    break;
                }
                let c = s[j];
                if c == '"' || c == '\'' {
                    quoted = !quoted;
                }
                if !quoted && c == ']' && j + 1 < n && s[j + 1] == '(' {
                    break;
                }
                j += 1;
            }
            if j < n {
                assert(j + 2 < n);
                let mut k = j + 2;
                let mut depth: usize = 1;
                loop
                    invariant
                        j + 2 <= k <= n,
                        n == s.len(),
                        depth <= k - j - 1,
                        target_end(s@, j + 2, 1) == target_end(s@, k as int, depth as int),
                    ensures
                        j + 2 <= k <= n,
                        k == target_end(s@, j + 2, 1),
                    decreases n - k,
                {
                    if k >= n || depth == 0 {
                        break;
                    }
                    if s[k] == '(' {
                        depth += 1;
                    } else if s[k] == ')' {
                        depth -= 1;
                    }
                    k += 1;
                }
                proof {
                    lemma_target_end(s@, j + 2, 1);
                }
                let raw = sub_chars(&s, j + 2, k - 1);
                let target = trim_chars(&raw);
                let label = sub_chars(&s, i + 1, j);
                let ghost rest = rewrite_from(s@, base@, hv, current_index, k as int);
                if link && label.len() > MAX_LINK_TEXT {
                    extend(&mut out, &label);
                    proof {
                        assert(rest is Some);
                        let (o2, t2) = rest->0;
                        assert(out@ + o2 =~= o0 + (label@ + o2));
                    }
                    i = k;
                    continue;
                }
                let target_s = string_of(&target);
                extend_range(&mut out, &s, i, j + 1);
                out.push('(');
                let http = ['h', 't', 't', 'p'];
                let data = ['d', 'a', 't', 'a', ':'];
                let epub = ['e', 'p', 'u', 'b', ':'];
                let mailto = ['m', 'a', 'i', 'l', 't', 'o', ':'];
                assert(http@ =~= lit_http());
                assert(data@ =~= lit_data());
                assert(epub@ =~= lit_epub());
                assert(mailto@ =~= lit_mailto());
                let is_http = starts_with_exec(&target, &http);
                let is_data = starts_with_exec(&target, &data);
                if image && !is_http && !is_data && !starts_with_exec(&target, &epub) {
                    let resolved = resolve_path(base, target_s.as_str());
                    let scheme = ['e', 'p', 'u', 'b', ':', '/', '/'];
                    assert(scheme@ =~= lit_epub_scheme());
                    extend_lit(&mut out, &scheme);
                    let rv = chars_of(resolved.as_str());
                    extend(&mut out, &rv);
                } else {
                    if !image && !is_http && !starts_with_exec(&target, &mailto) && !is_data {
                        let hash = find_char_exec(&target, '#', 0);
                        let path = string_of_range(&target, 0, hash);
                        assert(path@ =~= target@.take(hash as int));
                        let resolved = resolve_path(base, path.as_str());
                        let idx = chapter_of(chapter_hrefs, &resolved, current_index);
                        let ghost tb = hook_views(targets@);
                        targets.push((target_s, idx));
                        assert(hook_views(targets@) =~= tb.push((target@, idx)));
                    }
                    extend(&mut out, &target);
                }
                out.push(')');
                proof {
                    assert(rest is Some);
                    let (o2, t2) = rest->0;
                    let piece = s@.subrange(i as int, j + 1) + seq!['('] + new_target(
                        target@,
                        image,
                        base@,
                    ) + seq![')'];
                    assert(out@ =~= o0 + piece);
                    assert(hook_views(targets@) =~= t0 + hook_of(target@, image, base@, hv, current_index));
                    assert(out@ + o2 =~= o0 + (piece + o2));
                    assert(hook_views(targets@) + t2 =~= t0 + (hook_of(target@, image, base@, hv, current_index) + t2));
                }
                i = k;
                continue;
            }
        }
        out.push(s[i]);
        proof {
            let rest = rewrite_from(s@, base@, hv, current_index, i + 1);
            assert(rest is Some);
            let (o2, t2) = rest->0;
            assert(out@ + o2 =~= o0 + (seq![s@[i as int]] + o2));
        }
        i += 1;
    }
    proof {
        assert(out@ + seq![] =~= out@);
        assert(hook_views(targets@) + seq![] =~= hook_views(targets@));
    }
    (string_of(&out), targets)
}


/// Index of the `]` that closes a link label scanned from `j0`.
pub(crate) fn label_end_exec(s: &Vec<char>, j0: usize) -> (j: usize)
    requires
        j0 <= s.len(),
    ensures
        j0 <= j <= s.len(),
        j == label_end(s@, j0 as int, false),
{
    let n = s.len();
    let mut j = j0;
    let mut quoted = false;
    loop
        invariant
            j0 <= j <= n,
            n == s.len(),
            label_end(s@, j0 as int, false) == label_end(s@, j as int, quoted),
        ensures
            j0 <= j <= n,
            j == label_end(s@, j0 as int, false),
        decreases n - j,
    {
        if j >= n {
            break;
        }
        let c = s[j];
        if c == '"' || c == '\'' {
            quoted = !quoted;
        }
        if !quoted && c == ']' && j + 1 < n && s[j + 1] == '(' {
            break;
        }
        j += 1;
    }
    j
}

/// Index just after the `)` that balances the parenthesis open before `k0`.
pub(crate) fn target_end_exec(s: &Vec<char>, k0: usize) -> (k: usize)
    requires
        1 <= k0 <= s.len(),
    ensures
        k0 <= k <= s.len(),
        k == target_end(s@, k0 as int, 1),
{
    let n = s.len();
    let mut k = k0;
    let mut depth: usize = 1;
    loop
        invariant
            1 <= k0 <= k <= n,
            n == s.len(),
            depth <= k - k0 + 1,
            target_end(s@, k0 as int, 1) == target_end(s@, k as int, depth as int),
        ensures
            k0 <= k <= n,
            k == target_end(s@, k0 as int, 1),
        decreases n - k,
    {
        if k >= n || depth == 0 {
            break;
        }
        if s[k] == '(' {
            depth += 1;
        } else if s[k] == ')' {
            depth -= 1;
        }
        k += 1;
    }
    k
}

/// Whether the link scan over `markdown` runs to the end (no scanned link
/// or image has its `](` at the very end of the text).
pub fn scan_completes_exec(markdown: &str) -> (b: bool)
    ensures
        b == scan_completes(markdown@, 0),
{
    let s = chars_of(markdown);
    let n = s.len();
    let mut i: usize = 0;
    while i < n
        invariant
            0 <= i <= n,
            n == s.len(),
            s@ == markdown@,
            scan_completes(s@, i as int) == scan_completes(s@, 0),
        decreases n - i,
    {
        let image = s[i] == '!' && i + 1 < n && s[i + 1] == '[';
        let link = !image && s[i] == '[';
        if (image || link) && i + 1 < n {
            let j = label_end_exec(&s, i + 1);
            if j < n {
                if n - j <= 2 {
                    return false;
                }
                let k = target_end_exec(&s, j + 2);
                proof {
                    lemma_target_end(s@, j + 2, 1);
                }
                if k <= j + 2 {
                    return false;
                }
                i = k;
                continue;
            }
        }
        i += 1;
    }
    true
}

/// `rewrite_links_and_images`, answering `None` for the markdown on which
/// the link scan cannot finish.
pub fn rewrite_links_and_images_checked(
    markdown: &str,
    base: &str,
    chapter_hrefs: &[String],
    current_index: usize,
) -> (r: Option<(String, Vec<(String, usize)>)>)
    ensures
        r is Some == scan_completes(markdown@, 0),
        r matches Some(p) ==> (p.0@, hook_views(p.1@)) == spec_rewrite_links_and_images(
            markdown@,
            base@,
            href_views(chapter_hrefs@),
            current_index,
        ),
{
    if scan_completes_exec(markdown) {
        Some(rewrite_links_and_images(markdown, base, chapter_hrefs, current_index))
    } else {
        None
    }
}

} // verus!
