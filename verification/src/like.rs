//! Pattern matching as the store's queries use it: `%` stands for any run
//! of characters, `_` for any single character, and every other character
//! for itself, where the letters `A` to `Z` count as their lower-case forms.

use vstd::prelude::*;
use crate::text::chars_of;

verus! {

/// The code point of `c`, with the letters `A` to `Z` mapped to `a` to `z`.
pub open spec fn fold_code(c: char) -> u32 {
    if 65 <= c as u32 <= 90 {
        (c as u32 + 32) as u32
    } else {
        c as u32
    }
}

/// Whether the pattern from position `i` on matches the text from position
/// `j` on.
pub open spec fn like_from(pattern: Seq<char>, text: Seq<char>, i: int, j: int) -> bool
    decreases pattern.len() - i, text.len() - j,
{
    if i >= pattern.len() {
        j >= text.len()
    } else if pattern[i] == '%' {
        like_from(pattern, text, i + 1, j) || (j < text.len() && like_from(pattern, text, i, j + 1))
    } else if j >= text.len() {
        false
    } else if pattern[i] == '_' {
        like_from(pattern, text, i + 1, j + 1)
    } else {
        fold_code(pattern[i]) == fold_code(text[j]) && like_from(pattern, text, i + 1, j + 1)
    }
}

/// Whether the whole of `text` matches `pattern`.
pub open spec fn like_match(pattern: Seq<char>, text: Seq<char>) -> bool {
    like_from(pattern, text, 0, 0)
}

/// Whether `pattern` holds no wildcard, so that it stands for one text only,
/// letter case aside.
pub open spec fn literal(pattern: Seq<char>) -> bool {
    forall|i: int| 0 <= i < pattern.len() ==> (#[trigger] pattern[i]) != '%' && pattern[i] != '_'
}

/// Whether `a` and `b` are the same text, letter case aside.
pub open spec fn same_folded(a: Seq<char>, b: Seq<char>) -> bool {
    a.len() == b.len() && forall|i: int| 0 <= i < a.len() ==> fold_code(#[trigger] a[i]) == fold_code(b[i])
}

/// Whether `needle` stands in `hay` at position `at`, letter case aside.
pub open spec fn occurs_at(needle: Seq<char>, hay: Seq<char>, at: int) -> bool {
    &&& 0 <= at
    &&& at + needle.len() <= hay.len()
    &&& forall|x: int| 0 <= x < needle.len() ==> fold_code(#[trigger] needle[x]) == fold_code(hay[at + x])
}

/// Whether `needle` stands somewhere in `hay`, letter case aside.
pub open spec fn occurs(needle: Seq<char>, hay: Seq<char>) -> bool {
    exists|at: int| occurs_at(needle, hay, at)
}

/// Only the colon folds to what the colon folds to.
pub proof fn lemma_fold_colon(c: char)
    ensures
        (fold_code(c) == fold_code(':')) == (c == ':'),
{
    assert(':' as u32 == 58);
    if c as u32 == 58 {
        assert(c == ':');
    }
}

/// Every text matches itself as a pattern, wildcards or not.
pub proof fn lemma_like_self(text: Seq<char>)
    ensures
        like_match(text, text),
{
    lemma_like_self_from(text, 0);
}

/// From any position on, a text matches itself from that position on.
proof fn lemma_like_self_from(text: Seq<char>, i: int)
    requires
        0 <= i <= text.len(),
    ensures
        like_from(text, text, i, i),
    decreases text.len() - i,
{
    if i < text.len() {
        lemma_like_self_from(text, i + 1);
        if text[i] == '%' {
            assert(like_from(text, text, i, i + 1));
        }
    }
}

/// A pattern without wildcards matches the texts that are the same, letter
/// case aside, and no others.
pub proof fn lemma_like_literal(pattern: Seq<char>, text: Seq<char>)
    requires
        literal(pattern),
    ensures
        like_match(pattern, text) == same_folded(pattern, text),
{
    lemma_like_literal_from(pattern, text, 0);
    assert(same_folded(pattern, text) == (pattern.len() == text.len() && forall|x: int|
        0 <= x < pattern.len() ==> fold_code(#[trigger] pattern[x]) == fold_code(text[x])));
}

/// From a position on that both have, a pattern without wildcards matches a
/// text of its own length that agrees with it from there on, letter case
/// aside, and no other.
proof fn lemma_like_literal_from(pattern: Seq<char>, text: Seq<char>, i: int)
    requires
        literal(pattern),
        0 <= i <= pattern.len(),
        i <= text.len(),
    ensures
        like_from(pattern, text, i, i) == (pattern.len() == text.len() && forall|x: int|
            i <= x < pattern.len() ==> fold_code(#[trigger] pattern[x]) == fold_code(text[x])),
    decreases pattern.len() - i,
{
    if i < pattern.len() {
        assert(pattern[i] != '%' && pattern[i] != '_');
        if i < text.len() {
            lemma_like_literal_from(pattern, text, i + 1);
            if like_from(pattern, text, i, i) {
                assert forall|x: int| i <= x < pattern.len() implies fold_code(#[trigger] pattern[x])
                    == fold_code(text[x]) by {
                    if x > i {
                    }
                }
            }
        }
    }
}

/// A `%` at the end of a pattern matches whatever is left of the text.
proof fn lemma_like_rest(pattern: Seq<char>, text: Seq<char>, j: int)
    requires
        pattern.len() > 0,
        pattern.last() == '%',
        0 <= j <= text.len(),
    ensures
        like_from(pattern, text, pattern.len() - 1, j),
    decreases text.len() - j,
{
    let last = pattern.len() - 1;
    assert(pattern[last] == '%');
    if j < text.len() {
        lemma_like_rest(pattern, text, j + 1);
        assert(like_from(pattern, text, last, j + 1));
    } else {
        assert(like_from(pattern, text, last + 1, j));
    }
}

/// A `%` at the start of a pattern lets the rest of the pattern begin at any
/// later place of the text.
proof fn lemma_like_skip(pattern: Seq<char>, text: Seq<char>, j: int)
    requires
        pattern.len() > 0,
        pattern[0] == '%',
        0 <= j <= text.len(),
    ensures
        like_from(pattern, text, 0, j) == later_start(pattern, text, j),
    decreases text.len() - j,
{
    if j < text.len() {
        lemma_like_skip(pattern, text, j + 1);
        assert(like_from(pattern, text, 0, j) == (like_from(pattern, text, 1, j) || like_from(
            pattern,
            text,
            0,
            j + 1,
        )));
        if like_from(pattern, text, 1, j) {
            assert(later_start(pattern, text, j));
        }
        if later_start(pattern, text, j + 1) {
            let k = choose|k: int| j + 1 <= k <= text.len() && #[trigger] like_from(pattern, text, 1, k);
            assert(j <= k <= text.len() && like_from(pattern, text, 1, k));
        }
        if later_start(pattern, text, j) {
            let k = choose|k: int| j <= k <= text.len() && #[trigger] like_from(pattern, text, 1, k);
            if k > j {
                assert(j + 1 <= k <= text.len() && like_from(pattern, text, 1, k));
            }
        }
    } else {
        assert(like_from(pattern, text, 0, j) == like_from(pattern, text, 1, j));
        if later_start(pattern, text, j) {
            let k = choose|k: int| j <= k <= text.len() && #[trigger] like_from(pattern, text, 1, k);
            assert(k == j);
        }
    }
}

/// Whether the pattern behind its first character matches the text from
/// some place at or behind `j` on.
spec fn later_start(pattern: Seq<char>, text: Seq<char>, j: int) -> bool {
    exists|k: int| j <= k <= text.len() && #[trigger] like_from(pattern, text, 1, k)
}

/// The pattern `%`, a text without wildcards, `%`: from inside that text on
/// it matches where the rest of that text stands.
proof fn lemma_like_middle(needle: Seq<char>, text: Seq<char>, at: int, x: int)
    requires
        literal(needle),
        0 <= x <= needle.len(),
        0 <= at,
        at + x <= text.len(),
    ensures
        like_from(seq!['%'] + needle + seq!['%'], text, 1 + x, at + x) == (at + needle.len() <= text.len()
            && forall|y: int|
            x <= y < needle.len() ==> fold_code(#[trigger] needle[y]) == fold_code(text[at + y])),
    decreases needle.len() - x,
{
    let pattern = seq!['%'] + needle + seq!['%'];
    if x == needle.len() {
        assert(pattern.last() == '%');
        lemma_like_rest(pattern, text, at + x);
    } else {
        assert(pattern[1 + x] == needle[x]);
        assert(needle[x] != '%' && needle[x] != '_');
        if at + x < text.len() {
            lemma_like_middle(needle, text, at, x + 1);
            if like_from(pattern, text, 1 + x, at + x) {
                assert forall|y: int| x <= y < needle.len() implies fold_code(#[trigger] needle[y])
                    == fold_code(text[at + y]) by {
                    if y > x {
                    }
                }
            }
        }
    }
}

/// A text without wildcards between two `%` matches the texts in which it
/// stands somewhere, letter case aside, and no others.
pub proof fn lemma_like_contains(needle: Seq<char>, text: Seq<char>)
    requires
        literal(needle),
    ensures
        like_match(seq!['%'] + needle + seq!['%'], text) == occurs(needle, text),
{
    let pattern = seq!['%'] + needle + seq!['%'];
    lemma_like_skip(pattern, text, 0);
    assert(like_match(pattern, text) == later_start(pattern, text, 0));
    if like_match(pattern, text) {
        let k = choose|k: int| 0 <= k <= text.len() && #[trigger] like_from(pattern, text, 1, k);
        lemma_like_middle(needle, text, k, 0);
        assert(occurs_at(needle, text, k));
    }
    if occurs(needle, text) {
        let at = choose|at: int| occurs_at(needle, text, at);
        lemma_like_middle(needle, text, at, 0);
        assert(0 <= at <= text.len() && like_from(pattern, text, 1, at));
    }
}

/// The code point of `c` with upper-case ASCII letters folded to lower case.
pub fn folded(c: char) -> (code: u32)
    ensures
        code == fold_code(c),
{
    let code: u32 = c as u32;
    if 65 <= code && code <= 90 {
        code + 32
    } else {
        code
    }
}

/// A vector of `n` entries, each `false`.
fn all_false(n: usize) -> (row: Vec<bool>)
    ensures
        row@.len() == n,
        forall|k: int| 0 <= k < n ==> !row@[k],
{
    let mut row: Vec<bool> = Vec::new();
    while row.len() < n
        invariant
            row@.len() <= n,
            forall|k: int| 0 <= k < row@.len() ==> !row@[k],
        decreases n - row@.len(),
    {
        row.push(false);
    }
    row
}

/// Whether `text` matches `pattern`, both given as characters.
///
/// Works from the end of the pattern towards its start, keeping for one
/// pattern position at a time the answer for every text position.
pub fn like_chars(pattern: &Vec<char>, text: &Vec<char>) -> (matched: bool)
    ensures
        matched == like_match(pattern@, text@),
{
    let m: usize = pattern.len();
    let n: usize = text.len();
    // `row[j]` and `at_end` answer for the pattern position `i` and the
    // text positions `j < n` and `n`.
    let mut row: Vec<bool> = all_false(n);
    let mut at_end: bool = true;
    let mut i: usize = m;
    while i > 0
        invariant
            m == pattern@.len(),
            n == text@.len(),
            i <= m,
            row@.len() == n,
            at_end == like_from(pattern@, text@, i as int, n as int),
            forall|k: int| 0 <= k < n ==> row@[k] == like_from(pattern@, text@, i as int, k),
        decreases i,
    {
        i -= 1;
        let p: char = pattern[i];
        let mut next: Vec<bool> = all_false(n);
        let next_end: bool = p == '%' && at_end;
        let mut j: usize = n;
        while j > 0
            invariant
                m == pattern@.len(),
                n == text@.len(),
                i < m,
                j <= n,
                p == pattern@[i as int],
                row@.len() == n,
                next@.len() == n,
                at_end == like_from(pattern@, text@, i + 1, n as int),
                next_end == like_from(pattern@, text@, i as int, n as int),
                forall|k: int| 0 <= k < n ==> row@[k] == like_from(pattern@, text@, i + 1, k),
                forall|k: int| j <= k < n ==> next@[k] == like_from(pattern@, text@, i as int, k),
            decreases j,
        {
            j -= 1;
            let after_old: bool = if j + 1 < n { row[j + 1] } else { at_end };
            let after_new: bool = if j + 1 < n { next[j + 1] } else { next_end };
            let here: bool = if p == '%' {
                row[j] || after_new
            } else if p == '_' {
                after_old
            } else {
                folded(p) == folded(text[j]) && after_old
            };
            next.set(j, here);
        }
        row = next;
        at_end = next_end;
    }
    if n == 0 {
        at_end
    } else {
        row[0]
    }
}

/// Whether `text` matches `pattern`.
pub fn like(pattern: &str, text: &str) -> (matched: bool)
    ensures
        matched == like_match(pattern@, text@),
{
    let p = chars_of(pattern);
    let t = chars_of(text);
    like_chars(&p, &t)
}

} // verus!
