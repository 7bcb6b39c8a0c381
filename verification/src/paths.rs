//! Resolution of archive paths: hrefs relative to a base directory,
//! `.`/`..` components, query and fragment suffixes, percent escapes.

use vstd::prelude::*;
use vstd::utf8::{decode_utf8, encode_utf8, valid_utf8};
use crate::text::{chars_of, join, join_words, starts_with, string_of, views};

verus! {

/// What `String::from_utf8_lossy` makes of a byte sequence.
pub uninterp spec fn utf8_lossy(bytes: Seq<u8>) -> Seq<char>;

/// `String::from_utf8_lossy`: the bytes decoded as UTF-8, with invalid
/// sequences replaced. The contract names the result and states what the
/// documentation shows of valid input: it decodes unchanged.
#[verifier::external_body]
pub(crate) fn from_utf8_lossy(bytes: &[u8]) -> (s: String)
    ensures
        s@ == utf8_lossy(bytes@),
        valid_utf8(bytes@) ==> s@ == decode_utf8(bytes@),
{
    String::from_utf8_lossy(bytes).into_owned()
}

// ─── File paths of the platform ──────────────────────────────────────────

/// What follows the last `/` of a path (all of it without one).
pub open spec fn last_piece(p: Seq<char>) -> Seq<char> {
    p.skip(crate::reader::rfind_char(p, '/', p.len() as int) + 1)
}

/// A path that Unix and Windows read alike, ending in an ordinary name: no
/// `\` or `:`, not starting with `//`, and its last `/`-separated piece is
/// neither empty, `.` nor `..`. Both then read that piece as its file name.
pub open spec fn is_portable_path(p: Seq<char>) -> bool {
    &&& !p.contains('\\')
    &&& !p.contains(':')
    &&& !starts_with(p, seq!['/', '/'])
    &&& last_piece(p).len() > 0
    &&& last_piece(p) != seq!['.']
    &&& last_piece(p) != seq!['.', '.']
}

/// The stem of a file name, as `Path::file_stem` documents it: the whole name
/// when it has no `.` or only a leading one, else what comes before its last
/// `.`.
pub open spec fn stem_of_name(n: Seq<char>) -> Seq<char> {
    let k = crate::reader::rfind_char(n, '.', n.len() as int);
    if k <= 0 {
        n
    } else {
        n.take(k)
    }
}

/// Index of the first `a` or `b` at or after `i`; the length when none.
pub open spec fn find_either(s: Seq<char>, a: char, b: char, i: int) -> int
    decreases s.len() - i,
{
    if i < 0 || i >= s.len() {
        s.len() as int
    } else if s[i] == a || s[i] == b {
        i
    } else {
        find_either(s, a, b, i + 1)
    }
}

/// The pieces of `s` between occurrences of `sep` (`str::split`), scanned
/// from `i` with the current piece `cur` and the pieces found so far.
pub open spec fn split_from(s: Seq<char>, sep: char, i: int, cur: Seq<char>, acc: Seq<Seq<char>>) -> Seq<Seq<char>>
    decreases s.len() - i,
{
    if i < 0 || i >= s.len() {
        acc.push(cur)
    } else if s[i] == sep {
        split_from(s, sep, i + 1, seq![], acc.push(cur))
    } else {
        split_from(s, sep, i + 1, cur.push(s[i]), acc)
    }
}

pub open spec fn split(s: Seq<char>, sep: char) -> Seq<Seq<char>> {
    split_from(s, sep, 0, seq![], seq![])
}

/// Value of an ASCII hexadecimal digit.
pub open spec fn hex(b: u8) -> Option<u8> {
    if 48 <= b <= 57 {
        Some((b - 48) as u8)
    } else if 97 <= b <= 102 {
        Some((b - 97 + 10) as u8)
    } else if 65 <= b <= 70 {
        Some((b - 65 + 10) as u8)
    } else {
        None
    }
}

/// Bytes with each `%XY` escape (two hex digits) replaced by its byte,
/// scanned from `i`.
pub open spec fn unescape_from(b: Seq<u8>, i: int) -> Seq<u8>
    decreases b.len() - i,
{
    if i < 0 || i >= b.len() {
        seq![]
    } else if b[i] == 37 && i + 2 < b.len() && hex(b[i + 1]) is Some && hex(b[i + 2]) is Some {
        seq![(hex(b[i + 1])->0 * 16 + hex(b[i + 2])->0) as u8] + unescape_from(b, i + 3)
    } else {
        seq![b[i]] + unescape_from(b, i + 1)
    }
}

/// A path component with its percent escapes decoded.
pub open spec fn decode_component(c: Seq<char>) -> Seq<char> {
    lossy_text(unescape_from(encode_utf8(c), 0))
}

/// Bytes read as text the lenient way: valid UTF-8 decodes exactly.
pub open spec fn lossy_text(b: Seq<u8>) -> Seq<char> {
    if valid_utf8(b) {
        decode_utf8(b)
    } else {
        utf8_lossy(b)
    }
}

/// The component list after applying `c`: empty and `.` components are
/// skipped, `..` drops the last component, others are decoded and appended.
pub open spec fn push_component(parts: Seq<Seq<char>>, c: Seq<char>) -> Seq<Seq<char>> {
    if c.len() == 0 || c == seq!['.'] {
        parts
    } else if c == seq!['.', '.'] {
        if parts.len() > 0 {
            parts.drop_last()
        } else {
            parts
        }
    } else {
        parts.push(decode_component(c))
    }
}

pub open spec fn push_components(parts: Seq<Seq<char>>, comps: Seq<Seq<char>>) -> Seq<Seq<char>>
    decreases comps.len(),
{
    if comps.len() == 0 {
        parts
    } else {
        push_component(push_components(parts, comps.drop_last()), comps.last())
    }
}

/// `href` up to its first `?` or `#`.
pub open spec fn without_query(href: Seq<char>) -> Seq<char> {
    href.take(find_either(href, '?', '#', 0))
}

/// The archive path that `href` names relative to the directory `base`:
/// query and fragment removed, a leading `/` makes it relative to the root,
/// and components are resolved and joined with `/`.
pub open spec fn spec_resolve_path(base: Seq<char>, href: Seq<char>) -> Seq<char> {
    let h = without_query(href);
    let start = if starts_with(h, seq!['/']) {
        seq![]
    } else {
        push_components(seq![], split(base, '/'))
    };
    join(push_components(start, split(h, '/')), seq!['/'])
}

pub fn hex_value(value: u8) -> (r: Option<u8>)
    ensures
        r == hex(value),
{
    if 48 <= value && value <= 57 {
        Some(value - 48)
    } else if 97 <= value && value <= 102 {
        Some(value - 97 + 10)
    } else if 65 <= value && value <= 70 {
        Some(value - 65 + 10)
    } else {
        None
    }
}

/// Decodes the percent escapes of a path component.
pub fn percent_decode(value: &Vec<char>) -> (r: Vec<char>)
    ensures
        r@ == decode_component(value@),
{
    let s = string_of(value);
    let bytes = s.as_str().as_bytes();
    let mut decoded: Vec<u8> = Vec::new();
    let mut index: usize = 0;
    assert(decoded@ =~= Seq::<u8>::empty());
    while index < bytes.len()
        invariant
            0 <= index <= bytes.len(),
            bytes@ == encode_utf8(value@),
            unescape_from(bytes@, 0) == decoded@ + unescape_from(bytes@, index as int),
        decreases bytes.len() - index,
    {
        let ghost before = decoded@;
        if bytes[index] == 37 && bytes.len() - index > 2 {
            let high = hex_value(bytes[index + 1]);
            let low = hex_value(bytes[index + 2]);
            if let (Some(h), Some(l)) = (high, low) {
                decoded.push(h * 16 + l);
                assert(decoded@ =~= before + seq![(h * 16 + l) as u8]);
                index += 3;
                continue;
            }
        }
        decoded.push(bytes[index]);
        assert(decoded@ =~= before + seq![bytes@[index as int]]);
        index += 1;
    }
    assert(decoded@ =~= decoded@ + unescape_from(bytes@, index as int));
    let text = from_utf8_lossy(decoded.as_slice());
    chars_of(text.as_str())
}

/// Index of the first `a` or `b` in `s`.
fn find_either_exec(s: &Vec<char>, a: char, b: char) -> (r: usize)
    ensures
        r == find_either(s@, a, b, 0),
        r <= s.len(),
{
    let mut i: usize = 0;
    while i < s.len() && s[i] != a && s[i] != b
        invariant
            0 <= i <= s.len(),
            find_either(s@, a, b, 0) == find_either(s@, a, b, i as int),
        decreases s.len() - i,
    {
        i += 1;
    }
    i
}

/// Splits `s[..end]` at `sep`.
pub fn split_chars(s: &Vec<char>, end: usize, sep: char) -> (r: Vec<Vec<char>>)
    requires
        end <= s.len(),
    ensures
        views(r@) == split(s@.take(end as int), sep),
{
    let ghost t = s@.take(end as int);
    let mut acc: Vec<Vec<char>> = Vec::new();
    let mut cur: Vec<char> = Vec::new();
    let mut i: usize = 0;
    assert(views(acc@) =~= Seq::<Seq<char>>::empty());
    assert(cur@ =~= Seq::<char>::empty());
    while i < end
        invariant
            0 <= i <= end <= s.len(),
            t == s@.take(end as int),
            split(t, sep) == split_from(t, sep, i as int, cur@, views(acc@)),
        decreases end - i,
    {
        if s[i] == sep {
            let ghost old_acc = views(acc@);
            let w = cur;
            acc.push(w);
            assert(views(acc@) =~= old_acc.push(w@));
            cur = Vec::new();
            assert(cur@ =~= Seq::<char>::empty());
        } else {
            cur.push(s[i]);
        }
        i += 1;
    }
    let ghost old_acc = views(acc@);
    let w = cur;
    acc.push(w);
    assert(views(acc@) =~= old_acc.push(w@));
    acc
}

/// Applies one path component to `parts`.
pub fn append_path_component(parts: &mut Vec<Vec<char>>, component: &Vec<char>)
    ensures
        views(final(parts)@) == push_component(views(old(parts)@), component@),
{
    let ghost before = views(parts@);
    let n = component.len();
    if n == 0 || (n == 1 && component[0] == '.') {
        assert(n == 1 ==> component@ =~= seq!['.']);
        assert(n == 0 || component@ == seq!['.']);
    } else if n == 2 && component[0] == '.' && component[1] == '.' {
        assert(component@ =~= seq!['.', '.']);
        if parts.len() > 0 {
            parts.pop();
            assert(views(parts@) =~= before.drop_last());
        }
    } else {
        assert(component@ != seq!['.']) by {
            if component@ == seq!['.'] {
                assert(component@.len() == 1);
            }
        }
        assert(component@ != seq!['.', '.']) by {
            if component@ == seq!['.', '.'] {
                assert(component@[0] == '.' && component@[1] == '.');
            }
        }
        let d = percent_decode(component);
        parts.push(d);
        assert(views(parts@) =~= before.push(d@));
    }
}

/// Applies each of `comps` in turn.
fn append_all(parts: &mut Vec<Vec<char>>, comps: &Vec<Vec<char>>)
    ensures
        views(final(parts)@) == push_components(views(old(parts)@), views(comps@)),
{
    let mut i: usize = 0;
    while i < comps.len()
        invariant
            0 <= i <= comps.len(),
            views(parts@) == push_components(views(old(parts)@), views(comps@).take(i as int)),
        decreases comps.len() - i,
    {
        append_path_component(parts, &comps[i]);
        proof {
            let t = views(comps@).take(i + 1);
            assert(t.drop_last() =~= views(comps@).take(i as int));
        }
        i += 1;
    }
    assert(views(comps@).take(comps.len() as int) =~= views(comps@));
}

/// The archive path that `href` names relative to the directory `base`.
pub fn resolve_path(base: &str, href: &str) -> (r: String)
    ensures
        r@ == spec_resolve_path(base@, href@),
{
    let h = chars_of(href);
    let end = find_either_exec(&h, '?', '#');
    let mut parts: Vec<Vec<char>> = Vec::new();
    assert(views(parts@) =~= Seq::<Seq<char>>::empty());
    let ghost hv = h@.take(end as int);
    let rooted = end > 0 && h[0] == '/';
    proof {
        if rooted {
            assert(hv.subrange(0, 1) =~= seq!['/']);
        }
        if starts_with(hv, seq!['/']) {
            assert(hv.subrange(0, 1)[0] == '/');
        }
    }
    if !rooted {
        let b = chars_of(base);
        let comps = split_chars(&b, b.len(), '/');
        assert(b@.take(b.len() as int) =~= b@);
        append_all(&mut parts, &comps);
    }
    let comps = split_chars(&h, end, '/');
    append_all(&mut parts, &comps);
    let sep = ['/'];
    assert(sep@ =~= seq!['/']);
    let joined = join_words(&parts, &sep);
    string_of(&joined)
}

} // verus!
