//! Repairs for text artifacts typical of EPUB sources: uppercase words
//! spelled as separated letters and `/` definition separators.

use vstd::prelude::*;
use crate::text::{concat, concat_words, extend, is_upper, join, join_words, split_words, sub_chars, views, words};

verus! {

/// A one-letter word that is an ASCII uppercase letter.
pub open spec fn is_single_upper(w: Seq<char>) -> bool {
    w.len() == 1 && is_upper(w[0])
}

/// A word of two or more ASCII uppercase letters.
pub open spec fn is_upper_word(w: Seq<char>) -> bool {
    w.len() > 1 && forall|k: int| 0 <= k < w.len() ==> is_upper(#[trigger] w[k])
}

/// End of the run of single uppercase letters that starts at `j`.
pub open spec fn run_end(ws: Seq<Seq<char>>, j: int) -> int
    decreases ws.len() - j,
{
    if 0 <= j < ws.len() && is_single_upper(ws[j]) {
        run_end(ws, j + 1)
    } else {
        j
    }
}

pub proof fn lemma_run_end(ws: Seq<Seq<char>>, j: int)
    requires
        0 <= j <= ws.len(),
    ensures
        j <= run_end(ws, j) <= ws.len(),
        run_end(ws, j) < ws.len() ==> !is_single_upper(ws[run_end(ws, j)]),
    decreases ws.len() - j,
{
    if j < ws.len() && is_single_upper(ws[j]) {
        lemma_run_end(ws, j + 1);
    }
}

/// The repaired words from index `i` on: a run of single uppercase letters
/// followed by an uppercase word is glued (the last letter onto the word, the
/// letters before it into one word); a run of three or more letters not
/// followed by an uppercase word is glued into one word.
pub open spec fn fix_from(ws: Seq<Seq<char>>, i: int) -> Seq<Seq<char>>
    decreases ws.len() - i,
{
    if i < 0 || i >= ws.len() {
        seq![]
    } else if is_single_upper(ws[i]) {
        let j = run_end(ws, i + 1);
        if j <= i || j > ws.len() {
            seq![]
        } else if j < ws.len() && is_upper_word(ws[j]) {
            (if j - i > 1 {
                seq![concat(ws.subrange(i, j - 1))]
            } else {
                seq![]
            }) + seq![ws[j - 1] + ws[j]] + fix_from(ws, j + 1)
        } else if j - i >= 3 {
            seq![concat(ws.subrange(i, j))] + fix_from(ws, j)
        } else {
            seq![ws[i]] + fix_from(ws, i + 1)
        }
    } else {
        seq![ws[i]] + fix_from(ws, i + 1)
    }
}

/// Text whose spaced uppercase letters are glued back into words
/// ("I C AN B E" becomes "I CAN BE"); words are separated by one space.
pub open spec fn spec_fix_spaced_chars(text: Seq<char>) -> Seq<char> {
    join(fix_from(words(text), 0), seq![' '])
}

/// Index of the first character at or after `i` that is not `/`.
pub open spec fn skip_slash(w: Seq<char>, i: int) -> int
    decreases w.len() - i,
{
    if 0 <= i < w.len() && w[i] == '/' {
        skip_slash(w, i + 1)
    } else {
        i
    }
}

/// Index just after the last character before `j`, and not before `lo`,
/// that is not `/`.
pub open spec fn back_slash(w: Seq<char>, j: int, lo: int) -> int
    decreases j - lo,
{
    if lo < j <= w.len() && w[j - 1] == '/' {
        back_slash(w, j - 1, lo)
    } else {
        j
    }
}

/// `w` without leading and trailing `/` (`str::trim_matches('/')`).
pub open spec fn trim_slashes(w: Seq<char>) -> Seq<char> {
    let a = skip_slash(w, 0);
    w.subrange(a, back_slash(w, w.len() as int, a))
}

/// The words that survive the removal of `/` separators: a lone `/` is
/// dropped, others lose their leading and trailing slashes and are dropped
/// when nothing is left.
pub open spec fn separator_free(ws: Seq<Seq<char>>) -> Seq<Seq<char>>
    decreases ws.len(),
{
    if ws.len() == 0 {
        seq![]
    } else {
        let rest = separator_free(ws.drop_last());
        let w = ws.last();
        if w == seq!['/'] || trim_slashes(w).len() == 0 {
            rest
        } else {
            rest.push(trim_slashes(w))
        }
    }
}

pub open spec fn spec_remove_definition_separators(text: Seq<char>) -> Seq<char> {
    join(separator_free(words(text)), seq![' '])
}

pub fn is_uppercase_single(w: &Vec<char>) -> (b: bool)
    ensures
        b == is_single_upper(w@),
{
    w.len() == 1 && 'A' <= w[0] && w[0] <= 'Z'
}

pub fn is_uppercase_word(w: &Vec<char>) -> (b: bool)
    ensures
        b == is_upper_word(w@),
{
    if w.len() <= 1 {
        return false;
    }
    let mut k: usize = 0;
    while k < w.len()
        invariant
            0 <= k <= w.len(),
            forall|m: int| 0 <= m < k ==> is_upper(#[trigger] w@[m]),
        decreases w.len() - k,
    {
        if !('A' <= w[k] && w[k] <= 'Z') {
            return false;
        }
        k += 1;
    }
    true
}

/// Glues spaced uppercase letters back into words.
pub fn fix_spaced_chars(text: &Vec<char>) -> (r: Vec<char>)
    ensures
        r@ == spec_fix_spaced_chars(text@),
{
    let ws = split_words(text);
    let ghost wv = views(ws@);
    let mut fixed: Vec<Vec<char>> = Vec::new();
    let mut i: usize = 0;
    assert(views(fixed@) =~= Seq::<Seq<char>>::empty());
    while i < ws.len()
        invariant
            0 <= i <= ws.len(),
            wv == views(ws@),
            fix_from(wv, 0) == views(fixed@) + fix_from(wv, i as int),
        decreases ws.len() - i,
    {
        let ghost before = views(fixed@);
        if is_uppercase_single(&ws[i]) {
            let mut j = i;
            while j < ws.len() && is_uppercase_single(&ws[j])
                invariant
                    i <= j <= ws.len(),
                    wv == views(ws@),
                    run_end(wv, i + 1) == run_end(wv, j as int) || j == i,
                    j > i ==> run_end(wv, i + 1) == run_end(wv, j as int),
                decreases ws.len() - j,
            {
                j += 1;
            }
            proof {
                lemma_run_end(wv, i + 1);
                assert(j > i);
                assert(run_end(wv, i + 1) == j);
            }
            if j < ws.len() && is_uppercase_word(&ws[j]) {
                if j - i > 1 {
                    let glued = concat_words(&ws, i, j - 1);
                    fixed.push(glued);
                }
                let mut pair = ws[j - 1].clone();
                extend(&mut pair, &ws[j]);
                fixed.push(pair);
                proof {
                    let lead = if j - i > 1 {
                        seq![concat(wv.subrange(i as int, j - 1))]
                    } else {
                        seq![]
                    };
                    assert(views(fixed@) =~= before + lead + seq![wv[j - 1] + wv[j as int]]);
                }
                i = j + 1;
                continue;
            }
            if j - i >= 3 {
                let glued = concat_words(&ws, i, j);
                fixed.push(glued);
                assert(views(fixed@) =~= before + seq![concat(wv.subrange(i as int, j as int))]);
                i = j;
                continue;
            }
        }
        let w = ws[i].clone();
        fixed.push(w);
        assert(views(fixed@) =~= before + seq![wv[i as int]]);
        i += 1;
    }
    assert(views(fixed@) =~= views(fixed@) + fix_from(wv, i as int));
    let sep = [' '];
    assert(sep@ =~= seq![' ']);
    join_words(&fixed, &sep)
}

/// `w` without leading and trailing `/`.
pub fn trim_slashes_exec(w: &Vec<char>) -> (r: Vec<char>)
    ensures
        r@ == trim_slashes(w@),
{
    let mut a: usize = 0;
    while a < w.len() && w[a] == '/'
        invariant
            0 <= a <= w.len(),
            skip_slash(w@, 0) == skip_slash(w@, a as int),
        decreases w.len() - a,
    {
        a += 1;
    }
    let mut b: usize = w.len();
    while b > a && w[b - 1] == '/'
        invariant
            a <= b <= w.len(),
            back_slash(w@, w.len() as int, a as int) == back_slash(w@, b as int, a as int),
        decreases b - a,
    {
        b -= 1;
    }
    sub_chars(w, a, b)
}

/// Drops `/` definition separators between words.
pub fn remove_definition_separators(text: &Vec<char>) -> (r: Vec<char>)
    ensures
        r@ == spec_remove_definition_separators(text@),
{
    let ws = split_words(text);
    let mut kept: Vec<Vec<char>> = Vec::new();
    let mut i: usize = 0;
    assert(views(kept@) =~= separator_free(views(ws@).take(0)));
    while i < ws.len()
        invariant
            0 <= i <= ws.len(),
            views(kept@) == separator_free(views(ws@).take(i as int)),
        decreases ws.len() - i,
    {
        let ghost before = views(kept@);
        let w = &ws[i];
        let lone = w.len() == 1 && w[0] == '/';
        proof {
            assert(lone == (w@ == seq!['/'])) by {
                if w@ == seq!['/'] {
                    assert(w@[0] == '/');
                }
                if lone {
                    assert(w@ =~= seq!['/']);
                }
            }
        }
        if !lone {
            let t = trim_slashes_exec(w);
            if t.len() > 0 {
                kept.push(t);
            }
        }
        proof {
            let tk = views(ws@).take(i + 1);
            assert(tk.drop_last() =~= views(ws@).take(i as int));
            assert(tk.last() == w@);
            if !lone && trim_slashes(w@).len() > 0 {
                assert(views(kept@) =~= before.push(trim_slashes(w@)));
            } else {
                assert(views(kept@) =~= before);
            }
        }
        i += 1;
    }
    assert(views(ws@).take(ws.len() as int) =~= views(ws@));
    let sep = [' '];
    assert(sep@ =~= seq![' ']);
    join_words(&kept, &sep)
}

} // verus!
