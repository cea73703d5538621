//! The table as contracts speak of it: rows as plain text, the key that
//! tells them apart, and what each operation of the store makes of them.

use vstd::prelude::*;
use crate::codec::{decode, encode, kept, separator};
use crate::like::like_match;
use crate::paths::{file_stem, hidden, parent_name};
use crate::zettel::{links_in, tags_in, ZettelView};

verus! {

/// A row as contracts speak of it.
pub struct RowView {
    pub title: Seq<char>,
    pub project: Seq<char>,
    pub links: Seq<char>,
    pub tags: Seq<char>,
}

/// The row that stores `zettel`.
pub open spec fn encode_row(zettel: ZettelView) -> RowView {
    RowView {
        title: zettel.title,
        project: zettel.project,
        links: encode(zettel.links),
        tags: encode(zettel.tags),
    }
}

/// The note that `row` stores.
pub open spec fn decode_row(row: RowView) -> ZettelView {
    ZettelView {
        title: row.title,
        project: row.project,
        links: decode(row.links),
        tags: decode(row.tags),
    }
}

/// The notes that `rows` store, in the order of the rows.
pub open spec fn decoded(rows: Seq<RowView>) -> Seq<ZettelView> {
    rows.map_values(|row: RowView| decode_row(row))
}

/// Whether `row` is the row of the note with this title in this project.
pub open spec fn keyed(row: RowView, title: Seq<char>, project: Seq<char>) -> bool {
    row.title == title && row.project == project
}

/// Whether `rows` hold a row for this title in this project.
pub open spec fn has_key(rows: Seq<RowView>, title: Seq<char>, project: Seq<char>) -> bool {
    exists|i: int| 0 <= i < rows.len() && keyed(#[trigger] rows[i], title, project)
}

/// No two rows share title and project.
pub open spec fn unique_keys(rows: Seq<RowView>) -> bool {
    forall|i: int, j: int|
        0 <= i < j < rows.len() ==> !keyed(#[trigger] rows[i], (#[trigger] rows[j]).title, rows[j].project)
}

/// The table after `zettel` has been handed to the store: with a new row
/// for it at the end, or as before if there is a row for its title and
/// project.
pub open spec fn after_save(rows: Seq<RowView>, zettel: ZettelView) -> Seq<RowView> {
    if has_key(rows, zettel.title, zettel.project) {
        rows
    } else {
        rows.push(encode_row(zettel))
    }
}

/// The test that all rows pass but the one for this title in this project.
pub open spec fn other_than(title: Seq<char>, project: Seq<char>) -> spec_fn(RowView) -> bool {
    |row: RowView| !keyed(row, title, project)
}

/// The test that a row passes if its title matches `pattern`.
pub open spec fn title_like(pattern: Seq<char>) -> spec_fn(RowView) -> bool {
    |row: RowView| like_match(pattern, row.title)
}

/// The pattern that finds `token` as a whole entry of a stored list: the
/// token between two separators, with anything before and after.
pub open spec fn token_pattern(token: Seq<char>) -> Seq<char> {
    seq!['%'] + separator() + token + separator() + seq!['%']
}

/// The test that a row passes if its stored tags match the pattern that
/// finds `tag`.
pub open spec fn tagged(tag: Seq<char>) -> spec_fn(RowView) -> bool {
    |row: RowView| like_match(token_pattern(tag), row.tags)
}

/// The test that a row passes if its stored links match the pattern that
/// finds `title`.
pub open spec fn links_to(title: Seq<char>) -> spec_fn(RowView) -> bool {
    |row: RowView| like_match(token_pattern(title), row.links)
}

/// Where no row is keyed by a title and project, dropping the rows keyed by
/// them changes nothing.
pub proof fn lemma_filter_absent_key(rows: Seq<RowView>, title: Seq<char>, project: Seq<char>)
    requires
        !has_key(rows, title, project),
    ensures
        rows.filter(other_than(title, project)) == rows,
    decreases rows.len(),
{
    reveal(Seq::filter);
    if rows.len() > 0 {
        let front = rows.drop_last();
        assert forall|i: int| 0 <= i < front.len() implies !keyed(#[trigger] front[i], title, project) by {
            assert(front[i] == rows[i]);
        }
        lemma_filter_absent_key(front, title, project);
        assert(!keyed(rows[rows.len() - 1], title, project));
        assert(front.push(rows.last()) =~= rows);
    }
}

/// Where keys are unique, dropping the rows keyed by a title and project
/// removes the one row that is keyed by them.
pub proof fn lemma_filter_present_key(rows: Seq<RowView>, at: int, title: Seq<char>, project: Seq<char>)
    requires
        unique_keys(rows),
        0 <= at < rows.len(),
        keyed(rows[at], title, project),
    ensures
        rows.filter(other_than(title, project)) == rows.remove(at),
    decreases rows.len(),
{
    reveal(Seq::filter);
    let front = rows.drop_last();
    if at == rows.len() - 1 {
        assert forall|i: int| 0 <= i < front.len() implies !keyed(#[trigger] front[i], title, project) by {
            assert(front[i] == rows[i]);
            assert(!keyed(rows[i], rows[at].title, rows[at].project));
        }
        lemma_filter_absent_key(front, title, project);
        assert(front =~= rows.remove(at));
    } else {
        assert forall|i: int, j: int| 0 <= i < j < front.len() implies !keyed(
            #[trigger] front[i],
            (#[trigger] front[j]).title,
            front[j].project,
        ) by {
            assert(front[i] == rows[i] && front[j] == rows[j]);
        }
        assert(front[at] == rows[at]);
        lemma_filter_present_key(front, at, title, project);
        assert(!keyed(rows[at], rows[rows.len() - 1].title, rows[rows.len() - 1].project));
        assert(front.remove(at).push(rows.last()) =~= rows.remove(at));
    }
}

/// Once the rows keyed by a title and project are dropped, none is keyed by
/// them.
pub proof fn lemma_filter_drops_key(rows: Seq<RowView>, title: Seq<char>, project: Seq<char>)
    ensures
        !has_key(rows.filter(other_than(title, project)), title, project),
{
    let left = rows.filter(other_than(title, project));
    if has_key(left, title, project) {
        let i = choose|i: int| 0 <= i < left.len() && keyed(#[trigger] left[i], title, project);
        rows.lemma_filter_pred(other_than(title, project), i);
    }
}

/// Rows that are left when one is removed share no key if none were shared
/// before.
pub proof fn lemma_remove_keeps_unique(rows: Seq<RowView>, at: int)
    requires
        unique_keys(rows),
        0 <= at < rows.len(),
    ensures
        unique_keys(rows.remove(at)),
{
    let rest = rows.remove(at);
    assert forall|i: int, j: int| 0 <= i < j < rest.len() implies !keyed(
        #[trigger] rest[i],
        (#[trigger] rest[j]).title,
        rest[j].project,
    ) by {
        let a = if i < at { i } else { i + 1 };
        let b = if j < at { j } else { j + 1 };
        assert(rest[i] == rows[a] && rest[j] == rows[b]);
    }
}

/// The tags of a row.
pub open spec fn row_tags() -> spec_fn(RowView) -> Seq<Seq<char>> {
    |row: RowView| decode(row.tags)
}

/// The links of a row.
pub open spec fn row_links() -> spec_fn(RowView) -> Seq<Seq<char>> {
    |row: RowView| decode(row.links)
}

/// The project of a row, unless it is the unnamed one.
pub open spec fn row_project() -> spec_fn(RowView) -> Seq<Seq<char>> {
    |row: RowView| kept(row.project)
}

/// What `pick` takes from each of `rows`, one row after the other.
pub open spec fn collected(rows: Seq<RowView>, pick: spec_fn(RowView) -> Seq<Seq<char>>) -> Seq<
    Seq<char>,
>
    decreases rows.len(),
{
    if rows.len() == 0 {
        Seq::empty()
    } else {
        collected(rows.drop_last(), pick) + pick(rows.last())
    }
}

/// Whether some row has a title that matches `pattern`.
pub open spec fn titled_like(rows: Seq<RowView>, pattern: Seq<char>) -> bool {
    exists|i: int| 0 <= i < rows.len() && like_match(pattern, (#[trigger] rows[i]).title)
}

/// The links of `rows` that lead nowhere: no title matches them.
pub open spec fn dangling(rows: Seq<RowView>) -> Set<Seq<char>> {
    Set::new(|link: Seq<char>| collected(rows, row_links()).contains(link) && !titled_like(rows, link))
}

/// Whether some row has `title` among its links.
pub open spec fn linked(rows: Seq<RowView>, title: Seq<char>) -> bool {
    exists|i: int| 0 <= i < rows.len() && decode((#[trigger] rows[i]).links).contains(title)
}

/// The test that a row passes if it has no links and no row links to it.
pub open spec fn isolated_in(rows: Seq<RowView>) -> spec_fn(RowView) -> bool {
    |row: RowView| decode(row.links).len() == 0 && !linked(rows, row.title)
}

/// The change that puts the note with this title in this project into
/// `new_project` and leaves every other row as it is.
pub open spec fn moved(title: Seq<char>, project: Seq<char>, new_project: Seq<char>) -> spec_fn(
    RowView,
) -> RowView {
    |row: RowView|
        if keyed(row, title, project) {
            RowView { project: new_project, ..row }
        } else {
            row
        }
}

/// The change that gives the note with this title in this project the title
/// `new_title` and leaves every other row as it is.
pub open spec fn renamed(title: Seq<char>, project: Seq<char>, new_title: Seq<char>) -> spec_fn(
    RowView,
) -> RowView {
    |row: RowView|
        if keyed(row, title, project) {
            RowView { title: new_title, ..row }
        } else {
            row
        }
}

/// A note file as contracts speak of it.
pub struct NoteFileView {
    pub path: Seq<char>,
    pub contents: Seq<char>,
}

/// The test that a note file passes unless its name begins with a dot.
pub open spec fn visible() -> spec_fn(NoteFileView) -> bool {
    |file: NoteFileView| !hidden(file.path)
}

/// The row that stores the note of `file`.
pub open spec fn row_of_file(file: NoteFileView) -> RowView {
    encode_row(
        ZettelView {
            title: file_stem(file.path),
            project: parent_name(file.path),
            links: links_in(file.contents),
            tags: tags_in(file.contents),
        },
    )
}

/// The rows that a rebuild writes for `files`: one for each file whose name
/// does not begin with a dot, in the order of the files.
pub open spec fn records_of(files: Seq<NoteFileView>) -> Seq<RowView> {
    files.filter(visible()).map_values(|file: NoteFileView| row_of_file(file))
}

/// The rows for a list of files begin with the rows for its first files.
pub proof fn lemma_records_of_prefix(files: Seq<NoteFileView>, count: int)
    requires
        0 <= count <= files.len(),
    ensures
        records_of(files) == records_of(files.take(count)) + records_of(files.skip(count)),
{
    assert(files =~= files.take(count) + files.skip(count));
    Seq::filter_distributes_over_add(files.take(count), files.skip(count), visible());
    assert(records_of(files) =~= records_of(files.take(count)) + records_of(files.skip(count)));
}

/// Rows that share a key still do so when more rows follow them.
pub proof fn lemma_shared_key_stays(rows: Seq<RowView>, more: Seq<RowView>)
    requires
        !unique_keys(rows),
    ensures
        !unique_keys(rows + more),
{
    let (i, j) = choose|i: int, j: int|
        0 <= i < j < rows.len() && keyed(#[trigger] rows[i], (#[trigger] rows[j]).title, rows[j].project);
    assert((rows + more)[i] == rows[i]);
    assert((rows + more)[j] == rows[j]);
}

} // verus!
