//! What holds of the index as a whole: statements that tie several of its
//! operations together, proved from the contracts of those operations.

use vstd::prelude::*;
use crate::codec::{
    decode, encode, fenced, lemma_decode_encode, lemma_entry_occurs, lemma_occurrence_is_entry,
    storable,
};
use crate::table::{
    after_save, collected, dangling, decode_row, decoded, encode_row, has_key, isolated_in, keyed,
    lemma_filter_drops_key, linked, other_than, row_links, row_of_file, title_like, titled_like,
    token_pattern, NoteFileView, RowView,
};
use crate::like::{
    lemma_like_contains, lemma_like_literal, lemma_like_self, like_match, literal, occurs,
    occurs_at, same_folded,
};
use crate::paths::{lemma_note_path_leads_back, note_path};
use crate::text::has_char;
use crate::zettel::ZettelView;

verus! {

/// The titles of the notes that `rows` store.
pub open spec fn titles(rows: Seq<RowView>) -> Set<Seq<char>> {
    Set::new(|title: Seq<char>| exists|i: int| 0 <= i < rows.len() && (#[trigger] rows[i]).title == title)
}

/// Whether a row other than the one at `at` has the title of that row among
/// its links.
pub open spec fn linked_by_another(rows: Seq<RowView>, at: int) -> bool {
    exists|j: int| 0 <= j < rows.len() && j != at && decode((#[trigger] rows[j]).links).contains(rows[at].title)
}

/// A note that has been stored is found again by its title, alone and as it
/// went in: with the links and tags that it had.
///
/// This holds where the links and tags are storable and no title that was
/// there before matches the note's title; such a note is never refused.
pub proof fn law_stored_note_is_found(rows: Seq<RowView>, zettel: ZettelView)
    requires
        !titled_like(rows, zettel.title),
        forall|i: int| 0 <= i < zettel.links.len() ==> storable(#[trigger] zettel.links[i]),
        forall|i: int| 0 <= i < zettel.tags.len() ==> storable(#[trigger] zettel.tags[i]),
    ensures
        !has_key(rows, zettel.title, zettel.project),
        decoded(after_save(rows, zettel).filter(title_like(zettel.title))) == seq![zettel],
        decoded(after_save(rows, zettel).filter(title_like(zettel.title)))[0].links.to_set()
            == zettel.links.to_set(),
        decoded(after_save(rows, zettel).filter(title_like(zettel.title)))[0].tags.to_set()
            == zettel.tags.to_set(),
{
    let test = title_like(zettel.title);
    let row = encode_row(zettel);
    lemma_like_self(zettel.title);
    if has_key(rows, zettel.title, zettel.project) {
        let i = choose|i: int| 0 <= i < rows.len() && keyed(#[trigger] rows[i], zettel.title, zettel.project);
        assert(like_match(zettel.title, rows[i].title));
    }
    lemma_none_pass(rows, zettel.title);
    rows.lemma_filter_push(row, test);
    lemma_decode_encode(zettel.links);
    lemma_decode_encode(zettel.tags);
    assert(decode_row(row) == zettel);
    assert(decoded(seq![row]) =~= seq![zettel]);
    assert(Seq::<RowView>::empty().push(row) =~= seq![row]);
}

/// Where no title matches `pattern`, no row is found by it.
proof fn lemma_none_pass(rows: Seq<RowView>, pattern: Seq<char>)
    requires
        !titled_like(rows, pattern),
    ensures
        rows.filter(title_like(pattern)) == Seq::<RowView>::empty(),
    decreases rows.len(),
{
    reveal(Seq::filter);
    if rows.len() > 0 {
        let front = rows.drop_last();
        assert forall|i: int| 0 <= i < front.len() implies !like_match(pattern, (#[trigger] front[i]).title) by {
            assert(front[i] == rows[i]);
        }
        lemma_none_pass(front, pattern);
        assert(!like_match(pattern, rows[rows.len() - 1].title));
    }
}

/// Of two notes with the same title and project the second is refused,
/// whatever became of the first: once the first has been handed to the
/// store, the table holds a row with their title and project, and handing
/// over the second changes nothing.
pub proof fn law_same_key_is_refused(rows: Seq<RowView>, first: ZettelView, second: ZettelView)
    requires
        first.title == second.title,
        first.project == second.project,
    ensures
        has_key(after_save(rows, first), second.title, second.project),
        after_save(after_save(rows, first), second) == after_save(rows, first),
{
    if !has_key(rows, first.title, first.project) {
        let after = rows.push(encode_row(first));
        assert(keyed(after[rows.len() as int], second.title, second.project));
    }
}

/// The notes that are referred to but do not exist are the links that are
/// no titles.
///
/// This holds where no link holds a wildcard and no link differs from a
/// title by letter case alone: links are looked up as patterns, letter case
/// aside.
pub proof fn law_ghosts_are_links_without_titles(rows: Seq<RowView>)
    requires
        forall|link: Seq<char>| #[trigger] collected(rows, row_links()).contains(link) ==> literal(link),
        forall|link: Seq<char>, i: int|
            #![trigger collected(rows, row_links()).contains(link), rows[i]]
            collected(rows, row_links()).contains(link) && 0 <= i < rows.len() && same_folded(
                link,
                rows[i].title,
            ) ==> link == rows[i].title,
    ensures
        dangling(rows) == collected(rows, row_links()).to_set().difference(titles(rows)),
{
    let links = collected(rows, row_links());
    assert forall|link: Seq<char>| dangling(rows).contains(link) == links.to_set().difference(
        titles(rows),
    ).contains(link) by {
        if links.contains(link) {
            assert(literal(link));
            if titled_like(rows, link) {
                let i = choose|i: int| 0 <= i < rows.len() && like_match(link, (#[trigger] rows[i]).title);
                lemma_like_literal(link, rows[i].title);
                assert(link == rows[i].title);
                assert(titles(rows).contains(link));
            }
            if titles(rows).contains(link) {
                let i = choose|i: int| 0 <= i < rows.len() && (#[trigger] rows[i]).title == link;
                lemma_like_self(link);
                assert(like_match(link, rows[i].title));
            }
        }
    }
    assert(dangling(rows) =~= links.to_set().difference(titles(rows)));
}

/// A note without links whose title is among the links of no other note is
/// reported as standing alone; a note with a link, or one that another note
/// refers to, is not.
pub proof fn law_isolated_notes(rows: Seq<RowView>, at: int)
    requires
        0 <= at < rows.len(),
    ensures
        decode(rows[at].links).len() == 0 && !linked_by_another(rows, at) ==> rows.filter(
            isolated_in(rows),
        ).contains(rows[at]),
        decode(rows[at].links).len() > 0 || linked_by_another(rows, at) ==> !rows.filter(
            isolated_in(rows),
        ).contains(rows[at]),
{
    let test = isolated_in(rows);
    if decode(rows[at].links).len() == 0 && !linked_by_another(rows, at) {
        if linked(rows, rows[at].title) {
            let j = choose|j: int|
                0 <= j < rows.len() && decode((#[trigger] rows[j]).links).contains(rows[at].title);
            assert(j != at);
        }
        assert(test(rows[at]));
        rows.lemma_filter_contains(test, at);
    }
    if decode(rows[at].links).len() > 0 || linked_by_another(rows, at) {
        if linked_by_another(rows, at) {
            let j = choose|j: int|
                0 <= j < rows.len() && j != at && decode((#[trigger] rows[j]).links).contains(
                    rows[at].title,
                );
            assert(linked(rows, rows[at].title));
        }
        assert(!test(rows[at]));
        if rows.filter(test).contains(rows[at]) {
            let k = choose|k: int| 0 <= k < rows.filter(test).len() && rows.filter(test)[k] == rows[at];
            rows.lemma_filter_pred(test, k);
        }
    }
}

/// A query for a tag finds whole tags only: the stored tags match the
/// pattern of the query if and only if one of the tags is the tag that is
/// asked for, letter case aside. The same holds of links and titles.
///
/// This holds where the tag that is asked for holds no wildcard and neither
/// it nor the stored tags hold a colon.
pub proof fn law_query_finds_whole_tokens(token: Seq<char>, items: Seq<Seq<char>>)
    requires
        literal(token),
        !has_char(token, ':'),
        forall|i: int| 0 <= i < items.len() ==> !has_char(#[trigger] items[i], ':'),
    ensures
        like_match(token_pattern(token), encode(items)) == exists|i: int|
            0 <= i < items.len() && same_folded(#[trigger] items[i], token),
{
    let needle = fenced(token);
    assert(token_pattern(token) =~= seq!['%'] + needle + seq!['%']);
    assert forall|x: int| 0 <= x < needle.len() implies (#[trigger] needle[x]) != '%' && needle[x] != '_' by {
        if 2 <= x < 2 + token.len() {
            assert(needle[x] == token[x - 2]);
        }
    }
    lemma_like_contains(needle, encode(items));
    if occurs(needle, encode(items)) {
        let at = choose|at: int| occurs_at(needle, encode(items), at);
        lemma_occurrence_is_entry(token, items, at);
    }
    if exists|i: int| 0 <= i < items.len() && same_folded(#[trigger] items[i], token) {
        let i = choose|i: int| 0 <= i < items.len() && same_folded(#[trigger] items[i], token);
        lemma_entry_occurs(token, items, i);
    }
}

/// An update stores the note anew under the title and project that it had:
/// the path of its file leads back to them, so the new row is never refused
/// and takes the place of the old one at the end of the table.
///
/// This holds where neither title nor project holds a `/`, which would read
/// as one more directory.
pub proof fn law_update_keeps_the_key(
    rows: Seq<RowView>,
    base: Seq<char>,
    title: Seq<char>,
    project: Seq<char>,
    contents: Seq<char>,
)
    requires
        !has_char(title, '/'),
        !has_char(project, '/'),
    ensures
        ({
            let left = rows.filter(other_than(title, project));
            let fresh = row_of_file(
                NoteFileView { path: note_path(base, project, title), contents: contents },
            );
            &&& keyed(fresh, title, project)
            &&& !has_key(left, fresh.title, fresh.project)
        }),
{
    lemma_note_path_leads_back(base, project, title);
    lemma_filter_drops_key(rows, title, project);
}

} // verus!
