//! The text form in which a row stores a list of links or tags: the
//! separator, then every entry followed by the separator. So the empty list
//! is stored as `::`, and the list of `A` and `B` as `::A::B::`.

use vstd::prelude::*;
use vstd::string::StringExecFns;
use crate::like::{fold_code, lemma_fold_colon, occurs, occurs_at, same_folded};
use crate::text::{chars_of, has_char, texts};

verus! {

/// The token that bounds and separates the entries of a stored list.
pub const SQL_ARRAY_SEPARATOR: &'static str = "::";

/// The separator as characters.
pub open spec fn separator() -> Seq<char> {
    seq![':', ':']
}

/// Every entry of `items` followed by the separator, in order.
pub open spec fn entries(items: Seq<Seq<char>>) -> Seq<char>
    decreases items.len(),
{
    if items.len() == 0 {
        Seq::empty()
    } else {
        entries(items.drop_last()) + items.last() + separator()
    }
}

/// The stored form of `items`.
pub open spec fn encode(items: Seq<Seq<char>>) -> Seq<char> {
    separator() + entries(items)
}

/// Whether a separator starts at position `i` of `s`.
pub open spec fn sep_at(s: Seq<char>, i: int) -> bool {
    0 <= i && i + 1 < s.len() && s[i] == ':' && s[i + 1] == ':'
}

/// `piece` as a list: no entry if it is empty, else the one entry.
pub open spec fn kept(piece: Seq<char>) -> Seq<Seq<char>> {
    if piece.len() == 0 {
        Seq::empty()
    } else {
        seq![piece]
    }
}

/// The non-empty pieces between separators that are still to come when the
/// piece at hand began at `start` and the text has been read up to `i`.
/// Separators are taken leftmost first and do not overlap.
pub open spec fn pieces_from(s: Seq<char>, start: int, i: int) -> Seq<Seq<char>>
    decreases s.len() - i,
{
    if i >= s.len() {
        kept(s.subrange(start, s.len() as int))
    } else if sep_at(s, i) {
        kept(s.subrange(start, i)) + pieces_from(s, i + 2, i + 2)
    } else {
        pieces_from(s, start, i + 1)
    }
}

/// The entries that the stored text `s` holds: its non-empty pieces between
/// separators.
pub open spec fn decode(s: Seq<char>) -> Seq<Seq<char>> {
    pieces_from(s, 0, 0)
}

/// Whether `item` comes back from its stored form as it went in: it is not
/// empty, holds no separator, and does not end in a colon, which would run
/// into the separator that follows it.
pub open spec fn storable(item: Seq<char>) -> bool {
    &&& item.len() > 0
    &&& item.last() != ':'
    &&& forall|i: int| 0 <= i < item.len() - 1 ==> !(item[i] == ':' && #[trigger] item[i + 1] == ':')
}

/// The entries of a list that is not empty: its first entry, the separator,
/// and the entries of the rest.
pub proof fn lemma_entries_from_front(items: Seq<Seq<char>>)
    requires
        items.len() > 0,
    ensures
        entries(items) == items[0] + separator() + entries(items.skip(1)),
    decreases items.len(),
{
    if items.len() == 1 {
        assert(items.drop_last() =~= Seq::<Seq<char>>::empty());
        assert(items.skip(1) =~= Seq::<Seq<char>>::empty());
        assert(entries(items) =~= items[0] + separator() + entries(items.skip(1)));
    } else {
        let front = items.drop_last();
        lemma_entries_from_front(front);
        assert(front.skip(1) =~= items.skip(1).drop_last());
        assert(items.skip(1).last() == items.last());
        assert(front[0] == items[0]);
        assert(entries(items) =~= items[0] + separator() + entries(items.skip(1)));
    }
}

/// Reading on over characters at which no separator starts changes nothing.
pub proof fn lemma_pieces_read_on(s: Seq<char>, start: int, i: int, k: int)
    requires
        0 <= i <= k <= s.len(),
        forall|x: int| i <= x < k ==> !sep_at(s, x),
    ensures
        pieces_from(s, start, i) == pieces_from(s, start, k),
    decreases k - i,
{
    if i < k {
        assert(!sep_at(s, i));
        lemma_pieces_read_on(s, start, i + 1, k);
    }
}

/// Where the text from `at` on is made of storable entries, each followed by
/// the separator, its pieces from there on are those entries.
pub proof fn lemma_pieces_of_entries(s: Seq<char>, at: int, items: Seq<Seq<char>>)
    requires
        0 <= at <= s.len(),
        s.skip(at) == entries(items),
        forall|i: int| 0 <= i < items.len() ==> storable(#[trigger] items[i]),
    ensures
        pieces_from(s, at, at) == items,
    decreases items.len(),
{
    if items.len() == 0 {
        assert(s.skip(at).len() == 0);
        assert(s.subrange(at, s.len() as int).len() == 0);
        assert(pieces_from(s, at, at) =~= items);
    } else {
        let first = items[0];
        let rest = items.skip(1);
        let n = first.len() as int;
        let end = at + n;
        lemma_entries_from_front(items);
        assert(storable(first));
        assert(separator().len() == 2);
        assert(s.skip(at).len() == n + 2 + entries(rest).len());
        assert forall|x: int| 0 <= x < first.len() + 2 implies s[at + x] == (first + separator())[x] by {
            assert(s[at + x] == s.skip(at)[x]);
            assert(s.skip(at)[x] == (first + separator() + entries(rest))[x]);
        }
        assert(s.skip(at).len() >= first.len() + 2);
        assert forall|x: int| at <= x < end implies !sep_at(s, x) by {
            assert(s[x] == first[x - at]) by {
                assert(s[at + (x - at)] == (first + separator())[x - at]);
            }
            if x < end - 1 {
                assert(s[x + 1] == first[x - at + 1]) by {
                    assert(s[at + (x - at + 1)] == (first + separator())[x - at + 1]);
                }
            }
        }
        lemma_pieces_read_on(s, at, at, end);
        assert(sep_at(s, end)) by {
            assert(s[at + n] == (first + separator())[n]);
            assert(s[at + (n + 1)] == (first + separator())[n + 1]);
        }
        assert(s.subrange(at, end) =~= first) by {
            assert forall|x: int| 0 <= x < first.len() implies s.subrange(at, end)[x] == first[x] by {
                assert(s[at + x] == (first + separator())[x]);
            }
        }
        assert(s.skip(end + 2) =~= entries(rest)) by {
            assert forall|x: int| 0 <= x < entries(rest).len() implies s.skip(end + 2)[x] == entries(
                rest,
            )[x] by {
                assert(s.skip(at)[n + 2 + x] == (first + separator() + entries(rest))[n + 2 + x]);
            }
        }
        assert forall|i: int| 0 <= i < rest.len() implies storable(#[trigger] rest[i]) by {
            assert(rest[i] == items[i + 1]);
        }
        lemma_pieces_of_entries(s, end + 2, rest);
        assert(pieces_from(s, at, end) == kept(first) + pieces_from(s, end + 2, end + 2));
        assert(seq![first] + rest =~= items);
    }
}

/// A list of storable entries comes back from its stored form as it went in.
pub proof fn lemma_decode_encode(items: Seq<Seq<char>>)
    requires
        forall|i: int| 0 <= i < items.len() ==> storable(#[trigger] items[i]),
    ensures
        decode(encode(items)) == items,
{
    let s = encode(items);
    assert(sep_at(s, 0));
    assert(s.subrange(0, 0).len() == 0);
    assert(s.skip(2) =~= entries(items));
    lemma_pieces_of_entries(s, 2, items);
    assert(kept(s.subrange(0, 0)) + items =~= items);
}

/// The stored form of a list ends in the separator.
pub proof fn lemma_encode_ends_in_separator(items: Seq<Seq<char>>)
    ensures
        encode(items).len() >= 2,
        encode(items)[encode(items).len() - 2] == ':',
        encode(items)[encode(items).len() - 1] == ':',
{
}

/// The stored form of a list that is not empty: the stored form of all but
/// the last entry, then the last entry, then the separator.
pub proof fn lemma_encode_last(items: Seq<Seq<char>>)
    requires
        items.len() > 0,
    ensures
        encode(items) == encode(items.drop_last()) + items.last() + separator(),
{
    assert(encode(items) =~= encode(items.drop_last()) + items.last() + separator());
}

/// `token` between two separators.
pub open spec fn fenced(token: Seq<char>) -> Seq<char> {
    separator() + token + separator()
}

/// An entry of a list stands in the stored form between two separators; so
/// does every text that is the same as the entry, letter case aside.
pub proof fn lemma_entry_occurs(token: Seq<char>, items: Seq<Seq<char>>, i: int)
    requires
        0 <= i < items.len(),
        same_folded(items[i], token),
    ensures
        occurs(fenced(token), encode(items)),
    decreases items.len(),
{
    let front = items.drop_last();
    let last = items.last();
    let t = encode(items);
    let f = encode(front).len() as int;
    let needle = fenced(token);
    lemma_encode_last(items);
    lemma_encode_ends_in_separator(front);
    if i < items.len() - 1 {
        assert(front[i] == items[i]);
        lemma_entry_occurs(token, front, i);
        let at = choose|at: int| occurs_at(needle, encode(front), at);
        assert forall|x: int| 0 <= x < needle.len() implies fold_code(#[trigger] needle[x]) == fold_code(
            t[at + x],
        ) by {
            assert(t[at + x] == encode(front)[at + x]);
        }
        assert(occurs_at(needle, t, at));
    } else {
        let at = f - 2;
        let n = token.len() as int;
        assert forall|x: int| 0 <= x < needle.len() implies fold_code(#[trigger] needle[x]) == fold_code(
            t[at + x],
        ) by {
            if x < 2 {
                assert(t[at + x] == encode(front)[at + x]);
            } else if x < 2 + n {
                assert(needle[x] == token[x - 2]);
                assert(t[at + x] == last[x - 2]);
            } else {
                assert(t[at + x] == ':');
            }
        }
        assert(occurs_at(needle, t, at));
    }
}

/// Where neither the entries of a list nor `token` hold a colon, `token`
/// stands between two separators in the stored form only where an entry
/// stands that is the same as `token`, letter case aside.
pub proof fn lemma_occurrence_is_entry(token: Seq<char>, items: Seq<Seq<char>>, at: int)
    requires
        !has_char(token, ':'),
        forall|i: int| 0 <= i < items.len() ==> !has_char(#[trigger] items[i], ':'),
        occurs_at(fenced(token), encode(items), at),
    ensures
        exists|i: int| 0 <= i < items.len() && same_folded(#[trigger] items[i], token),
    decreases items.len(),
{
    let needle = fenced(token);
    let t = encode(items);
    let n = token.len() as int;
    let len = n + 4;
    assert(needle.len() == len);
    assert(needle[0] == ':' && needle[1] == ':' && needle[n + 2] == ':' && needle[n + 3] == ':');
    assert forall|y: int| 0 <= y < n implies needle[y + 2] == token[y] && token[y] != ':' by {}
    if items.len() == 0 {
        assert(t.len() == 2);
    } else {
        let front = items.drop_last();
        let last = items.last();
        let f = encode(front).len() as int;
        let m = last.len() as int;
        lemma_encode_last(items);
        lemma_encode_ends_in_separator(front);
        assert(t.len() == f + m + 2);
        assert forall|x: int| 0 <= x < f implies t[x] == encode(front)[x] by {}
        assert forall|y: int| 0 <= y < m implies t[f + y] == last[y] && last[y] != ':' by {}
        assert(t[f + m] == ':' && t[f + m + 1] == ':');
        // A character of the stored form that answers to a colon of the
        // needle is a colon; none that answers to a character of `token` is.
        assert forall|x: int| 0 <= x < len implies (needle[x] == ':') == (#[trigger] t[at + x] == ':') by {
            assert(fold_code(needle[x]) == fold_code(t[at + x]));
            lemma_fold_colon(needle[x]);
            lemma_fold_colon(t[at + x]);
        }
        if at + len <= f {
            assert forall|x: int| 0 <= x < needle.len() implies fold_code(#[trigger] needle[x])
                == fold_code(encode(front)[at + x]) by {
                assert(t[at + x] == encode(front)[at + x]);
            }
            assert(occurs_at(needle, encode(front), at));
            assert forall|i: int| 0 <= i < front.len() implies !has_char(#[trigger] front[i], ':') by {
                assert(front[i] == items[i]);
            }
            lemma_occurrence_is_entry(token, front, at);
            let i = choose|i: int| 0 <= i < front.len() && same_folded(#[trigger] front[i], token);
            assert(items[i] == front[i]);
        } else {
            let e = at + len - 1;
            assert(t[at + (len - 1)] == ':');
            assert(t[at + (len - 2)] == ':');
            if e < f + m {
                assert(t[f + (e - f)] == last[e - f]);
                assert(false);
            }
            if e == f + m {
                if m > 0 {
                    assert(t[f + (m - 1)] == last[m - 1]);
                    assert(false);
                }
                if n > 0 {
                    // the last character of `token` would answer to a colon
                    assert(needle[(n - 1) + 2] == token[n - 1]);
                    assert(t[at + (n + 1)] != ':');
                    assert(at + (n + 1) == f - 2);
                    assert(t[f - 2] == encode(front)[f - 2]);
                    assert(false);
                }
                assert(same_folded(last, token));
            } else {
                assert(e == f + m + 1);
                if n < m {
                    assert(t[at + 1] == ':');
                    assert(at + 1 == f + (m - n - 1));
                    assert(t[f + (m - n - 1)] == last[m - n - 1]);
                    assert(false);
                }
                if n > m {
                    let x = n - m + 1;
                    assert(needle[(n - m - 1) + 2] == token[n - m - 1]);
                    assert(t[at + x] != ':');
                    assert(at + x == f - 1);
                    assert(t[f - 1] == encode(front)[f - 1]);
                    assert(false);
                }
                assert forall|y: int| 0 <= y < m implies fold_code(#[trigger] last[y]) == fold_code(
                    token[y],
                ) by {
                    assert(fold_code(needle[y + 2]) == fold_code(t[at + (y + 2)]));
                    assert(at + (y + 2) == f + y);
                }
                assert(same_folded(last, token));
            }
            assert(same_folded(items[items.len() - 1], token));
        }
    }
}

/// Join `vec` into its stored form: the separator first, then each entry
/// followed by the separator.
pub fn vec_to_str(vec: &[String]) -> (stored: String)
    ensures
        stored@ == encode(texts(vec@)),
{
    proof {
        reveal_strlit("::");
    }
    assert(SQL_ARRAY_SEPARATOR@ =~= separator());
    let mut stored: String = String::from_str(SQL_ARRAY_SEPARATOR);
    let n: usize = vec.len();
    let mut i: usize = 0;
    assert(texts(vec@).take(0) =~= Seq::<Seq<char>>::empty());
    while i < n
        invariant
            n == vec@.len(),
            i <= n,
            SQL_ARRAY_SEPARATOR@ == separator(),
            stored@ == encode(texts(vec@).take(i as int)),
        decreases n - i,
    {
        stored.append(vec[i].as_str());
        stored.append(SQL_ARRAY_SEPARATOR);
        proof {
            let before = texts(vec@).take(i as int);
            let now = texts(vec@).take(i + 1);
            assert(now.drop_last() =~= before);
            assert(now.last() == vec@[i as int]@);
            assert(stored@ =~= encode(now));
        }
        i += 1;
    }
    assert(texts(vec@).take(n as int) =~= texts(vec@));
    stored
}

/// Split `text` on the separator and return the non-empty pieces.
pub fn str_to_vec(text: &str) -> (items: Vec<String>)
    ensures
        texts(items@) == decode(text@),
{
    let chars = chars_of(text);
    let n: usize = chars.len();
    let mut items: Vec<String> = Vec::new();
    let mut start: usize = 0;
    let mut i: usize = 0;
    assert(texts(items@) =~= Seq::<Seq<char>>::empty());
    while i < n
        invariant
            chars@ == text@,
            n == chars@.len(),
            start <= i <= n,
            texts(items@) + pieces_from(text@, start as int, i as int) == decode(text@),
        decreases n - i,
    {
        if i + 1 < n && chars[i] == ':' && chars[i + 1] == ':' {
            assert(sep_at(text@, i as int));
            if start < i {
                let piece = text.substring_char(start, i);
                let ghost before = texts(items@);
                items.push(String::from_str(piece));
                assert(texts(items@) =~= before + kept(text@.subrange(start as int, i as int)));
            }
            i += 2;
            start = i;
        } else {
            assert(!sep_at(text@, i as int));
            i += 1;
        }
    }
    if start < n {
        let piece = text.substring_char(start, n);
        let ghost before = texts(items@);
        items.push(String::from_str(piece));
        assert(texts(items@) =~= before + kept(text@.subrange(start as int, n as int)));
    }
    items
}

} // verus!
