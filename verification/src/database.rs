//! The store: one table with a row per note, keyed by title and project,
//! and the queries that are answered from it.

use vstd::prelude::*;
use vstd::string::StringExecFns;
use crate::codec::{decode, kept, separator, str_to_vec, vec_to_str, SQL_ARRAY_SEPARATOR};
use crate::config::ConfigOptions;
use crate::error::StoreError;
use crate::like::{like_chars, like_match};
use crate::paths::{is_hidden, note_path};
use crate::sorting::sorted_unique;
use crate::table::{
    after_save, collected, dangling, decode_row, decoded, encode_row, has_key, isolated_in, keyed,
    lemma_filter_absent_key, lemma_filter_drops_key, lemma_filter_present_key,
    lemma_records_of_prefix, lemma_remove_keeps_unique, lemma_shared_key_stays, linked, links_to,
    moved, other_than, records_of, renamed, row_links, row_of_file, row_project, row_tags, tagged,
    title_like, titled_like, token_pattern, unique_keys, visible, NoteFileView, RowView,
};
use crate::text::{chars_of, strictly_ascending, text_lt, texts};
use crate::zettel::{Zettel, ZettelView};

verus! {

/// A row of the table: the title and project of a note, and its links and
/// tags in their stored form.
struct Row {
    title: String,
    project: String,
    links: String,
    tags: String,
}

impl View for Row {
    type V = RowView;

    closed spec fn view(&self) -> RowView {
        RowView { title: self.title@, project: self.project@, links: self.links@, tags: self.tags@ }
    }
}

/// What a list of notes says.
pub open spec fn zettel_views(zettels: Seq<Zettel>) -> Seq<ZettelView> {
    zettels.map_values(|zettel: Zettel| zettel@)
}

/// A note file as it was read: where it lies and what it holds.
#[derive(Clone, Debug, PartialEq, Eq)]
pub struct NoteFile {
    pub path: String,
    pub contents: String,
}

impl View for NoteFile {
    type V = NoteFileView;

    open spec fn view(&self) -> NoteFileView {
        NoteFileView { path: self.path@, contents: self.contents@ }
    }
}

/// What a list of note files says.
pub open spec fn file_views(files: Seq<NoteFile>) -> Seq<NoteFileView> {
    files.map_values(|file: NoteFile| file@)
}

/// Whether every read gave a file.
pub open spec fn all_read(reads: Seq<Option<NoteFile>>) -> bool {
    forall|i: int| 0 <= i < reads.len() ==> (#[trigger] reads[i]) is Some
}

/// The files that the reads gave, where every read gave one.
pub open spec fn files_read(reads: Seq<Option<NoteFile>>) -> Seq<NoteFileView> {
    reads.map_values(|read: Option<NoteFile>| read.unwrap()@)
}

/// The index: where it is kept, and its table.
///
/// No two rows of the table share title and project. Whatever changes the
/// table takes the index by `&mut`, so there is one writer at a time and a
/// reader sees the table before a change or after it.
pub struct Database {
    uri: String,
    table: Vec<Row>,
}

impl View for Database {
    type V = Seq<RowView>;

    closed spec fn view(&self) -> Seq<RowView> {
        row_views(self.table@)
    }
}

/// What a list of rows says.
spec fn row_views(rows: Seq<Row>) -> Seq<RowView> {
    rows.map_values(|row: Row| row@)
}

/// The place in `table` of the row for this title in this project.
fn place_of(table: &Vec<Row>, title: &str, project: &str) -> (at: Option<usize>)
    ensures
        match at {
            Some(i) => i < table@.len() && keyed(row_views(table@)[i as int], title@, project@),
            None => !has_key(row_views(table@), title@, project@),
        },
{
    let wanted_title: String = String::from_str(title);
    let wanted_project: String = String::from_str(project);
    let n: usize = table.len();
    let mut i: usize = 0;
    while i < n
        invariant
            n == table@.len(),
            i <= n,
            wanted_title@ == title@,
            wanted_project@ == project@,
            forall|k: int| 0 <= k < i ==> !keyed(#[trigger] row_views(table@)[k], title@, project@),
        decreases n - i,
    {
        let row = &table[i];
        assert(row_views(table@)[i as int] == row@);
        if row.title == wanted_title && row.project == wanted_project {
            return Some(i);
        }
        i += 1;
    }
    None
}

/// A copy of `row`.
fn copy_of(row: &Row) -> (copy: Row)
    ensures
        copy@ == row@,
{
    Row {
        title: row.title.clone(),
        project: row.project.clone(),
        links: row.links.clone(),
        tags: row.tags.clone(),
    }
}

/// The note that `row` stores.
fn zettel_of(row: &Row) -> (zettel: Zettel)
    ensures
        zettel@ == decode_row(row@),
{
    Zettel {
        title: row.title.clone(),
        project: row.project.clone(),
        links: str_to_vec(row.links.as_str()),
        tags: str_to_vec(row.tags.as_str()),
    }
}

/// The row that stores `zettel`.
fn row_of(zettel: &Zettel) -> (row: Row)
    ensures
        row@ == encode_row(zettel@),
{
    Row {
        title: zettel.title.clone(),
        project: zettel.project.clone(),
        links: vec_to_str(zettel.links.as_slice()),
        tags: vec_to_str(zettel.tags.as_slice()),
    }
}

impl Database {
    #[verifier::type_invariant]
    spec fn keys_are_unique(self) -> bool {
        unique_keys(self@)
    }

    /// The place at which the index is kept.
    pub closed spec fn location(&self) -> Seq<char> {
        self.uri@
    }

    /// Hand out the table and leave an empty one in its place.
    fn take_table(&mut self) -> (table: Vec<Row>)
        ensures
            row_views(table@) == old(self)@,
            unique_keys(row_views(table@)),
            final(self)@ == Seq::<RowView>::empty(),
            final(self).location() == old(self).location(),
    {
        proof {
            use_type_invariant(&*self);
        }
        let mut table: Vec<Row> = Vec::new();
        assert(row_views(table@) =~= Seq::<RowView>::empty());
        core::mem::swap(&mut table, &mut self.table);
        table
    }

    /// Put `table` in the place of the table.
    fn put_table(&mut self, table: Vec<Row>)
        requires
            unique_keys(row_views(table@)),
        ensures
            final(self)@ == row_views(table@),
            final(self).location() == old(self).location(),
    {
        self.table = table;
    }

    /// An empty index that is kept at `uri`.
    pub fn new(uri: &str) -> (db: Database)
        ensures
            db@ == Seq::<RowView>::empty(),
            db.location() == uri@,
    {
        let db = Database { uri: String::from_str(uri), table: Vec::new() };
        assert(db@ =~= Seq::<RowView>::empty());
        db
    }

    /// The place at which the index is kept.
    pub fn uri(&self) -> (uri: &str)
        ensures
            uri@ == self.location(),
    {
        self.uri.as_str()
    }

    /// Whether the table holds a row for this title in this project.
    pub fn contains(&self, title: &str, project: &str) -> (found: bool)
        ensures
            found == has_key(self@, title@, project@),
    {
        self.position(title, project).is_some()
    }

    /// The place of the row for this title in this project.
    fn position(&self, title: &str, project: &str) -> (at: Option<usize>)
        ensures
            match at {
                Some(i) => i < self@.len() && keyed(self@[i as int], title@, project@),
                None => !has_key(self@, title@, project@),
            },
    {
        place_of(&self.table, title, project)
    }

    /// Store `zettel`: a new row at the end of the table. Refused, and
    /// nothing changed, if the table holds a row for its title and project.
    pub fn save(&mut self, zettel: &Zettel) -> (done: Result<(), StoreError>)
        ensures
            final(self).location() == old(self).location(),
            unique_keys(final(self)@),
            final(self)@ == after_save(old(self)@, zettel@),
            done == if has_key(old(self)@, zettel@.title, zettel@.project) {
                Err::<(), StoreError>(StoreError::Constraint)
            } else {
                Ok::<(), StoreError>(())
            },
    {
        proof {
            use_type_invariant(&*self);
        }
        if self.contains(zettel.title.as_str(), zettel.project.as_str()) {
            return Err(StoreError::Constraint);
        }
        let row = row_of(zettel);
        let mut table = self.take_table();
        let ghost before = row_views(table@);
        table.push(row);
        proof {
            let after = row_views(table@);
            assert(after =~= before.push(encode_row(zettel@)));
            assert forall|i: int, j: int| 0 <= i < j < after.len() implies !keyed(
                #[trigger] after[i],
                (#[trigger] after[j]).title,
                after[j].project,
            ) by {
                if j == before.len() {
                    assert(!keyed(before[i], zettel@.title, zettel@.project));
                }
            }
        }
        self.put_table(table);
        Ok(())
    }

    /// An empty index that is kept in memory under the name `filename`.
    pub fn new_in_memory(filename: &str) -> (db: Database)
        ensures
            db@ == Seq::<RowView>::empty(),
            db.location() == "file:"@ + filename@ + "?mode=memory&cache=shared"@,
    {
        let mut uri: String = String::from_str("file:");
        uri.append(filename);
        uri.append("?mode=memory&cache=shared");
        Database::new(uri.as_str())
    }

    /// A snapshot of the index, to be kept at `path`.
    pub fn write_to(&self, path: &str) -> (snapshot: Database)
        ensures
            snapshot@ == self@,
            snapshot.location() == path@,
    {
        proof {
            use_type_invariant(self);
        }
        let mut table: Vec<Row> = Vec::new();
        let n: usize = self.table.len();
        let mut i: usize = 0;
        while i < n
            invariant
                n == self.table@.len(),
                i <= n,
                row_views(table@) == self@.take(i as int),
            decreases n - i,
        {
            let copy = copy_of(&self.table[i]);
            let ghost so_far = table@;
            table.push(copy);
            proof {
                assert(self@[i as int] == self.table@[i as int]@);
                assert(row_views(table@) =~= row_views(so_far).push(copy@));
                assert(self@.take(i + 1) =~= self@.take(i as int).push(self@[i as int]));
            }
            i += 1;
        }
        assert(self@.take(n as int) =~= self@);
        Database { uri: String::from_str(path), table }
    }

    /// Remove the row of `zettel`, which is found by its title and project.
    /// Nothing changes if there is none.
    pub fn delete(&mut self, zettel: &Zettel)
        ensures
            final(self).location() == old(self).location(),
            unique_keys(final(self)@),
            final(self)@ == old(self)@.filter(other_than(zettel@.title, zettel@.project)),
            !has_key(final(self)@, zettel@.title, zettel@.project),
    {
        proof {
            use_type_invariant(&*self);
            lemma_filter_drops_key(self@, zettel@.title, zettel@.project);
        }
        match self.position(zettel.title.as_str(), zettel.project.as_str()) {
            None => {
                proof {
                    lemma_filter_absent_key(self@, zettel@.title, zettel@.project);
                }
            },
            Some(at) => {
                let ghost before = self@;
                let mut table = self.take_table();
                table.remove(at);
                proof {
                    assert(row_views(table@) =~= before.remove(at as int));
                    lemma_filter_present_key(before, at as int, zettel@.title, zettel@.project);
                    lemma_remove_keeps_unique(before, at as int);
                }
                self.put_table(table);
            },
        }
    }

    /// The notes of the rows that are flagged, in the order of the rows.
    fn flagged(&self, flags: &Vec<bool>, Ghost(test): Ghost<spec_fn(RowView) -> bool>) -> (found: Vec<
        Zettel,
    >)
        requires
            flags@.len() == self@.len(),
            forall|k: int| 0 <= k < flags@.len() ==> flags@[k] == test(#[trigger] self@[k]),
        ensures
            zettel_views(found@) == decoded(self@.filter(test)),
    {
        let mut found: Vec<Zettel> = Vec::new();
        let n: usize = self.table.len();
        let mut i: usize = 0;
        proof {
            reveal(Seq::filter);
            assert(self@.take(0).filter(test) =~= Seq::<RowView>::empty());
            assert(zettel_views(found@) =~= decoded(self@.take(0).filter(test)));
        }
        while i < n
            invariant
                n == self.table@.len(),
                n == flags@.len(),
                i <= n,
                forall|k: int| 0 <= k < flags@.len() ==> flags@[k] == test(#[trigger] self@[k]),
                zettel_views(found@) == decoded(self@.take(i as int).filter(test)),
            decreases n - i,
        {
            let ghost before = self@.take(i as int);
            proof {
                assert(self@.take(i + 1) =~= before.push(self@[i as int]));
                before.lemma_filter_push(self@[i as int], test);
            }
            if flags[i] {
                let zettel = zettel_of(&self.table[i]);
                let ghost so_far = found@;
                found.push(zettel);
                proof {
                    assert(self@[i as int] == self.table@[i as int]@);
                    assert(zettel_views(found@) =~= zettel_views(so_far).push(zettel@));
                    assert(decoded(before.filter(test).push(self@[i as int])) =~= decoded(
                        before.filter(test),
                    ).push(decode_row(self@[i as int])));
                }
            }
            i += 1;
        }
        assert(self@.take(n as int) =~= self@);
        found
    }

    /// For each row, whether the text that `column` picks from it matches
    /// `pattern`.
    fn flags_like(&self, pattern: &str, column: Column) -> (flags: Vec<bool>)
        ensures
            flags@.len() == self@.len(),
            forall|k: int|
                0 <= k < flags@.len() ==> flags@[k] == like_match(pattern@, column.of(#[trigger] self@[k])),
    {
        let wanted = chars_of(pattern);
        let mut flags: Vec<bool> = Vec::new();
        let n: usize = self.table.len();
        let mut i: usize = 0;
        while i < n
            invariant
                n == self.table@.len(),
                i <= n,
                wanted@ == pattern@,
                flags@.len() == i,
                forall|k: int|
                    0 <= k < i ==> flags@[k] == like_match(pattern@, column.of(#[trigger] self@[k])),
            decreases n - i,
        {
            let row = &self.table[i];
            assert(self@[i as int] == row@);
            let text = match column {
                Column::Title => chars_of(row.title.as_str()),
                Column::Links => chars_of(row.links.as_str()),
                Column::Tags => chars_of(row.tags.as_str()),
            };
            flags.push(like_chars(&wanted, &text));
            i += 1;
        }
        flags
    }

    /// Every note of the index, in the order of the rows.
    pub fn all(&self) -> (found: Vec<Zettel>)
        ensures
            zettel_views(found@) == decoded(self@),
            unique_keys(self@),
    {
        proof {
            use_type_invariant(self);
        }
        let mut found: Vec<Zettel> = Vec::new();
        let n: usize = self.table.len();
        let mut i: usize = 0;
        assert(zettel_views(found@) =~= decoded(self@.take(0)));
        while i < n
            invariant
                n == self.table@.len(),
                i <= n,
                zettel_views(found@) == decoded(self@.take(i as int)),
            decreases n - i,
        {
            let zettel = zettel_of(&self.table[i]);
            let ghost so_far = found@;
            found.push(zettel);
            proof {
                assert(self@[i as int] == self.table@[i as int]@);
                assert(zettel_views(found@) =~= zettel_views(so_far).push(zettel@));
                assert(self@.take(i + 1) =~= self@.take(i as int).push(self@[i as int]));
                assert(decoded(self@.take(i as int).push(self@[i as int])) =~= decoded(
                    self@.take(i as int),
                ).push(decode_row(self@[i as int])));
            }
            i += 1;
        }
        assert(self@.take(n as int) =~= self@);
        found
    }

    /// The notes whose title matches `pattern`, in the order of the rows. In
    /// the pattern `%` stands for any run of characters and `_` for any one
    /// character.
    pub fn find_by_title(&self, pattern: &str) -> (found: Vec<Zettel>)
        ensures
            zettel_views(found@) == decoded(self@.filter(title_like(pattern@))),
    {
        let flags = self.flags_like(pattern, Column::Title);
        self.flagged(&flags, Ghost(title_like(pattern@)))
    }

    /// The notes that carry `tag`, in the order of the rows: those whose
    /// stored tags hold `tag` between two separators.
    pub fn find_by_tag(&self, tag: &str) -> (found: Vec<Zettel>)
        ensures
            zettel_views(found@) == decoded(self@.filter(tagged(tag@))),
    {
        let pattern = whole_token(tag);
        let flags = self.flags_like(pattern.as_str(), Column::Tags);
        self.flagged(&flags, Ghost(tagged(tag@)))
    }

    /// The notes that link to `title`, in the order of the rows: those whose
    /// stored links hold `title` between two separators.
    pub fn find_by_links_to(&self, title: &str) -> (found: Vec<Zettel>)
        ensures
            zettel_views(found@) == decoded(self@.filter(links_to(title@))),
    {
        let pattern = whole_token(title);
        let flags = self.flags_like(pattern.as_str(), Column::Links);
        self.flagged(&flags, Ghost(links_to(title@)))
    }

    /// What the rows hold of one kind of name, one row after the other.
    fn collect(&self, listing: Listing) -> (names: Vec<String>)
        ensures
            texts(names@) == collected(self@, listing.pick()),
    {
        let mut names: Vec<String> = Vec::new();
        let n: usize = self.table.len();
        let mut i: usize = 0;
        assert(texts(names@) =~= collected(self@.take(0), listing.pick()));
        while i < n
            invariant
                n == self.table@.len(),
                i <= n,
                texts(names@) == collected(self@.take(i as int), listing.pick()),
            decreases n - i,
        {
            let row = &self.table[i];
            let mut more: Vec<String> = match listing {
                Listing::Tags => str_to_vec(row.tags.as_str()),
                Listing::Links => str_to_vec(row.links.as_str()),
                Listing::Projects => {
                    let mut own: Vec<String> = Vec::new();
                    if !row.project.as_str().is_empty() {
                        own.push(row.project.clone());
                    }
                    assert(texts(own@) =~= kept(row.project@));
                    own
                },
            };
            let ghost so_far = names@;
            let ghost added = more@;
            names.append(&mut more);
            proof {
                assert(self@[i as int] == row@);
                assert(texts(added) == listing.pick()(self@[i as int]));
                assert(texts(names@) =~= texts(so_far) + texts(added));
                assert(self@.take(i + 1).drop_last() =~= self@.take(i as int));
            }
            i += 1;
        }
        assert(self@.take(n as int) =~= self@);
        names
    }

    /// Whether some note has a title that matches `pattern`.
    pub fn has_title_like(&self, pattern: &str) -> (found: bool)
        ensures
            found == titled_like(self@, pattern@),
    {
        let flags = self.flags_like(pattern, Column::Title);
        let n: usize = flags.len();
        let mut i: usize = 0;
        while i < n
            invariant
                n == flags@.len(),
                n == self@.len(),
                i <= n,
                forall|k: int|
                    0 <= k < n ==> flags@[k] == like_match(pattern@, Column::Title.of(#[trigger] self@[k])),
                forall|k: int| 0 <= k < i ==> !like_match(pattern@, (#[trigger] self@[k]).title),
            decreases n - i,
        {
            if flags[i] {
                assert(like_match(pattern@, self@[i as int].title));
                return true;
            }
            i += 1;
        }
        false
    }

    /// The tags in use: every tag of every note, sorted, each once.
    pub fn list_tags(&self) -> (tags: Vec<String>)
        ensures
            strictly_ascending(texts(tags@)),
            texts(tags@).to_set() == collected(self@, row_tags()).to_set(),
    {
        sorted_unique(self.collect(Listing::Tags))
    }

    /// The projects in use: the project of every note that has a named one,
    /// sorted, each once.
    pub fn list_projects(&self) -> (projects: Vec<String>)
        ensures
            strictly_ascending(texts(projects@)),
            texts(projects@).to_set() == collected(self@, row_project()).to_set(),
    {
        sorted_unique(self.collect(Listing::Projects))
    }

    /// The notes that are referred to but do not exist: every link of every
    /// note that, taken as a pattern, matches no title; sorted, each once.
    pub fn zettel_not_yet_created(&self) -> (ghosts: Vec<String>)
        ensures
            strictly_ascending(texts(ghosts@)),
            texts(ghosts@).to_set() == dangling(self@),
    {
        let links = sorted_unique(self.collect(Listing::Links));
        let mut ghosts: Vec<String> = Vec::new();
        let ghost mut origin: Seq<int> = Seq::empty();
        let n: usize = links.len();
        let mut i: usize = 0;
        while i < n
            invariant
                n == links@.len(),
                i <= n,
                strictly_ascending(texts(links@)),
                origin.len() == ghosts@.len(),
                forall|k: int|
                    0 <= k < ghosts@.len() ==> 0 <= #[trigger] origin[k] < i && ghosts@[k]@
                        == links@[origin[k]]@ && !titled_like(self@, ghosts@[k]@),
                forall|idx: int|
                    0 <= idx < i && !titled_like(self@, (#[trigger] links@[idx])@) ==> texts(
                        ghosts@,
                    ).contains(links@[idx]@),
                strictly_ascending(texts(ghosts@)),
            decreases n - i,
        {
            if !self.has_title_like(links[i].as_str()) {
                let ghost before = ghosts@;
                ghosts.push(links[i].clone());
                proof {
                    origin = origin.push(i as int);
                    assert forall|a: int, b: int| 0 <= a < b < ghosts@.len() implies text_lt(
                        #[trigger] texts(ghosts@)[a],
                        #[trigger] texts(ghosts@)[b],
                    ) by {
                        if b < before.len() {
                            assert(texts(before)[a] == texts(ghosts@)[a]);
                            assert(texts(before)[b] == texts(ghosts@)[b]);
                        } else {
                            assert(text_lt(texts(links@)[origin[a]], texts(links@)[i as int]));
                        }
                    }
                    assert forall|idx: int|
                        0 <= idx < i + 1 && !titled_like(self@, (#[trigger] links@[idx])@) implies texts(
                        ghosts@,
                    ).contains(links@[idx]@) by {
                        if idx < i {
                            let k = choose|k: int|
                                0 <= k < texts(before).len() && texts(before)[k] == links@[idx]@;
                            assert(texts(ghosts@)[k] == links@[idx]@);
                        } else {
                            assert(texts(ghosts@)[ghosts@.len() - 1] == links@[idx]@);
                        }
                    }
                }
            }
            i += 1;
        }
        proof {
            let all = collected(self@, row_links());
            assert forall|x: Seq<char>| texts(ghosts@).to_set().contains(x) == dangling(self@).contains(
                x,
            ) by {
                if texts(ghosts@).contains(x) {
                    let k = choose|k: int| 0 <= k < texts(ghosts@).len() && texts(ghosts@)[k] == x;
                    assert(texts(links@)[origin[k]] == x);
                    assert(texts(links@).to_set().contains(x));
                    assert(all.to_set().contains(x));
                }
                if dangling(self@).contains(x) {
                    assert(all.to_set().contains(x));
                    assert(texts(links@).to_set().contains(x));
                    let idx = choose|idx: int| 0 <= idx < texts(links@).len() && texts(links@)[idx] == x;
                    assert(links@[idx]@ == x);
                }
            }
            assert(texts(ghosts@).to_set() =~= dangling(self@));
        }
        ghosts
    }

    /// The notes that stand alone, in the order of the rows: those without
    /// links that no note links to.
    pub fn isolated(&self) -> (found: Vec<Zettel>)
        ensures
            zettel_views(found@) == decoded(self@.filter(isolated_in(self@))),
    {
        let n: usize = self.table.len();
        let mut links: Vec<Vec<String>> = Vec::new();
        let mut i: usize = 0;
        while i < n
            invariant
                n == self.table@.len(),
                i <= n,
                links@.len() == i,
                forall|k: int| 0 <= k < i ==> texts((#[trigger] links@[k])@) == decode(self@[k].links),
            decreases n - i,
        {
            let row = &self.table[i];
            assert(self@[i as int] == row@);
            links.push(str_to_vec(row.links.as_str()));
            i += 1;
        }
        let mut flags: Vec<bool> = Vec::new();
        let mut i: usize = 0;
        while i < n
            invariant
                n == self.table@.len(),
                i <= n,
                links@.len() == n,
                forall|k: int| 0 <= k < n ==> texts((#[trigger] links@[k])@) == decode(self@[k].links),
                flags@.len() == i,
                forall|k: int| 0 <= k < i ==> flags@[k] == isolated_in(self@)(#[trigger] self@[k]),
            decreases n - i,
        {
            let row = &self.table[i];
            assert(self@[i as int] == row@);
            let alone: bool = links[i].len() == 0 && !mentioned(&links, &row.title);
            proof {
                assert(texts(links@[i as int]@).len() == links@[i as int]@.len());
                if linked(self@, row.title@) {
                    let k = choose|k: int|
                        0 <= k < self@.len() && decode((#[trigger] self@[k]).links).contains(row.title@);
                    assert(texts(links@[k]@).contains(row.title@));
                }
                if exists|k: int| 0 <= k < links@.len() && texts((#[trigger] links@[k])@).contains(row.title@) {
                    let k = choose|k: int|
                        0 <= k < links@.len() && texts((#[trigger] links@[k])@).contains(row.title@);
                    assert(decode(self@[k].links).contains(row.title@));
                }
            }
            flags.push(alone);
            i += 1;
        }
        self.flagged(&flags, Ghost(isolated_in(self@)))
    }

    /// Put the row at `at` under a new title and project. The caller sees to
    /// it that no other row has them.
    fn rekey(&mut self, at: usize, title: &str, project: &str)
        requires
            at < old(self)@.len(),
            forall|k: int|
                0 <= k < old(self)@.len() && k != at ==> !keyed(#[trigger] old(self)@[k], title@, project@),
        ensures
            final(self).location() == old(self).location(),
            final(self)@ == old(self)@.update(
                at as int,
                (RowView { title: title@, project: project@, ..old(self)@[at as int] }),
            ),
    {
        let ghost before = self@;
        let mut table = self.take_table();
        let row = Row {
            title: String::from_str(title),
            project: String::from_str(project),
            links: table[at].links.clone(),
            tags: table[at].tags.clone(),
        };
        assert(before[at as int] == table@[at as int]@);
        table.set(at, row);
        proof {
            let after = row_views(table@);
            assert(after =~= before.update(
                at as int,
                (RowView { title: title@, project: project@, ..before[at as int] }),
            ));
            assert forall|i: int, j: int| 0 <= i < j < after.len() implies !keyed(
                #[trigger] after[i],
                (#[trigger] after[j]).title,
                after[j].project,
            ) by {
                if i == at {
                    assert(!keyed(before[j], title@, project@));
                } else if j == at {
                    assert(!keyed(before[i], title@, project@));
                } else {
                    assert(!keyed(before[i], before[j].title, before[j].project));
                }
            }
        }
        self.put_table(table);
    }

    /// Put the note that is found by the title and project of `zettel` into
    /// `new_project`; its other columns stay. Nothing changes if there is no
    /// such note. Refused, and nothing changed, if `new_project` already has
    /// a note with that title.
    pub fn change_project(&mut self, zettel: &Zettel, new_project: &str) -> (done: Result<(), StoreError>)
        ensures
            final(self).location() == old(self).location(),
            unique_keys(final(self)@),
            ({
                let after = old(self)@.map_values(moved(zettel@.title, zettel@.project, new_project@));
                if unique_keys(after) {
                    done == Ok::<(), StoreError>(()) && final(self)@ == after
                } else {
                    done == Err::<(), StoreError>(StoreError::Constraint) && final(self)@ == old(self)@
                }
            }),
    {
        proof {
            use_type_invariant(&*self);
        }
        let ghost before = self@;
        let ghost after = before.map_values(moved(zettel@.title, zettel@.project, new_project@));
        match self.position(zettel.title.as_str(), zettel.project.as_str()) {
            None => {
                assert(after =~= before);
                Ok(())
            },
            Some(at) => {
                proof {
                    assert forall|k: int| 0 <= k < before.len() && k != at implies !keyed(
                        #[trigger] before[k],
                        zettel@.title,
                        zettel@.project,
                    ) by {
                        if k < at {
                            assert(!keyed(before[k], before[at as int].title, before[at as int].project));
                        } else {
                            assert(!keyed(before[at as int], before[k].title, before[k].project));
                        }
                    }
                }
                match self.position(zettel.title.as_str(), new_project) {
                    Some(other) => {
                        if other == at {
                            assert(after =~= before);
                            Ok(())
                        } else {
                            proof {
                                assert(after[at as int].project == new_project@);
                                assert(after[other as int] == before[other as int]);
                                if at < other {
                                    assert(keyed(
                                        after[at as int],
                                        after[other as int].title,
                                        after[other as int].project,
                                    ));
                                } else {
                                    assert(keyed(
                                        after[other as int],
                                        after[at as int].title,
                                        after[at as int].project,
                                    ));
                                }
                            }
                            Err(StoreError::Constraint)
                        }
                    },
                    None => {
                        self.rekey(at, zettel.title.as_str(), new_project);
                        assert(self@ =~= after);
                        Ok(())
                    },
                }
            },
        }
    }

    /// Give the note that is found by the title and project of `zettel` the
    /// title `new_title`; its other columns stay. Nothing changes if there
    /// is no such note. Refused, and nothing changed, if its project already
    /// has a note with the new title.
    pub fn change_title(&mut self, zettel: &Zettel, new_title: &str) -> (done: Result<(), StoreError>)
        ensures
            final(self).location() == old(self).location(),
            unique_keys(final(self)@),
            ({
                let after = old(self)@.map_values(renamed(zettel@.title, zettel@.project, new_title@));
                if unique_keys(after) {
                    done == Ok::<(), StoreError>(()) && final(self)@ == after
                } else {
                    done == Err::<(), StoreError>(StoreError::Constraint) && final(self)@ == old(self)@
                }
            }),
    {
        proof {
            use_type_invariant(&*self);
        }
        let ghost before = self@;
        let ghost after = before.map_values(renamed(zettel@.title, zettel@.project, new_title@));
        match self.position(zettel.title.as_str(), zettel.project.as_str()) {
            None => {
                assert(after =~= before);
                Ok(())
            },
            Some(at) => {
                proof {
                    assert forall|k: int| 0 <= k < before.len() && k != at implies !keyed(
                        #[trigger] before[k],
                        zettel@.title,
                        zettel@.project,
                    ) by {
                        if k < at {
                            assert(!keyed(before[k], before[at as int].title, before[at as int].project));
                        } else {
                            assert(!keyed(before[at as int], before[k].title, before[k].project));
                        }
                    }
                }
                match self.position(new_title, zettel.project.as_str()) {
                    Some(other) => {
                        if other == at {
                            assert(after =~= before);
                            Ok(())
                        } else {
                            proof {
                                assert(after[at as int].title == new_title@);
                                assert(after[other as int] == before[other as int]);
                                if at < other {
                                    assert(keyed(
                                        after[at as int],
                                        after[other as int].title,
                                        after[other as int].project,
                                    ));
                                } else {
                                    assert(keyed(
                                        after[other as int],
                                        after[at as int].title,
                                        after[at as int].project,
                                    ));
                                }
                            }
                            Err(StoreError::Constraint)
                        }
                    },
                    None => {
                        self.rekey(at, new_title, zettel.project.as_str());
                        assert(self@ =~= after);
                        Ok(())
                    },
                }
            },
        }
    }

    /// Take the row of `zettel` out and store the note anew, as it is read
    /// from `contents`, the text of its file. The two steps are not one: if
    /// the new row is refused, the old one is gone all the same.
    pub fn update(&mut self, cfg: &ConfigOptions, zettel: &Zettel, contents: &str) -> (done: Result<
        (),
        StoreError,
    >)
        ensures
            final(self).location() == old(self).location(),
            unique_keys(final(self)@),
            ({
                let left = old(self)@.filter(other_than(zettel@.title, zettel@.project));
                let path = note_path(cfg.zettelkasten@, zettel@.project, zettel@.title);
                let fresh = row_of_file(NoteFileView { path: path, contents: contents@ });
                if has_key(left, fresh.title, fresh.project) {
                    done == Err::<(), StoreError>(StoreError::Constraint) && final(self)@ == left
                } else {
                    done == Ok::<(), StoreError>(()) && final(self)@ == left.push(fresh)
                }
            }),
    {
        self.delete(zettel);
        let path = zettel.filename(cfg);
        let fresh = Zettel::from_file(path.as_str(), contents);
        self.save(&fresh)
    }

    /// Rebuild: store the note of every file in `files` whose name does not
    /// begin with a dot, all of them or none. The rows that are there stay;
    /// if a note of the files has the title and project of one of them, or
    /// of another note of the files, the rebuild is refused and the table is
    /// as it was.
    pub fn generate(&mut self, files: &Vec<NoteFile>) -> (done: Result<(), StoreError>)
        ensures
            final(self).location() == old(self).location(),
            unique_keys(final(self)@),
            done is Err ==> final(self)@ == old(self)@,
            ({
                let after = old(self)@ + records_of(file_views(files@));
                if unique_keys(after) {
                    done == Ok::<(), StoreError>(()) && final(self)@ == after
                } else {
                    done == Err::<(), StoreError>(StoreError::Constraint) && final(self)@ == old(self)@
                }
            }),
    {
        let ghost before = self@;
        let ghost given = file_views(files@);
        let mut table = self.take_table();
        let kept_rows: usize = table.len();
        let n: usize = files.len();
        let mut i: usize = 0;
        proof {
            reveal(Seq::filter);
            assert(records_of(given.take(0)) =~= Seq::<RowView>::empty());
            assert(row_views(table@) =~= before + records_of(given.take(0)));
        }
        while i < n
            invariant
                n == files@.len(),
                i <= n,
                given == file_views(files@),
                before == old(self)@,
                kept_rows == before.len(),
                unique_keys(before),
                unique_keys(row_views(table@)),
                row_views(table@) == before + records_of(given.take(i as int)),
                self@ == Seq::<RowView>::empty(),
                self.location() == old(self).location(),
            decreases n - i,
        {
            let file = &files[i];
            let ghost so_far = given.take(i as int);
            proof {
                assert(given[i as int] == file@);
                assert(given.take(i + 1) =~= so_far.push(file@));
                so_far.lemma_filter_push(file@, visible());
            }
            if !is_hidden(file.path.as_str()) {
                let zettel = Zettel::from_file(file.path.as_str(), file.contents.as_str());
                let row = row_of(&zettel);
                assert(row@ == row_of_file(file@));
                proof {
                    assert(records_of(so_far.push(file@)) =~= records_of(so_far).push(row@));
                }
                if place_of(&table, zettel.title.as_str(), zettel.project.as_str()).is_some() {
                    proof {
                        let clash = row_views(table@).push(row@);
                        let first = choose|k: int|
                            0 <= k < row_views(table@).len() && keyed(
                                #[trigger] row_views(table@)[k],
                                row@.title,
                                row@.project,
                            );
                        assert(clash[first] == row_views(table@)[first]);
                        assert(clash[clash.len() - 1] == row@);
                        assert(keyed(clash[first], clash[clash.len() - 1].title, clash[clash.len() - 1].project));
                        assert(!unique_keys(clash));
                        assert(clash =~= before + records_of(given.take(i + 1)));
                        lemma_records_of_prefix(given, i + 1);
                        lemma_shared_key_stays(clash, records_of(given.skip(i + 1)));
                        assert(clash + records_of(given.skip(i + 1)) =~= before + records_of(given));
                    }
                    let ghost full = row_views(table@);
                    assert(full.len() >= kept_rows);
                    table.truncate(kept_rows);
                    assert(row_views(table@) =~= full.take(kept_rows as int));
                    assert(full.take(kept_rows as int) =~= before);
                    self.put_table(table);
                    return Err(StoreError::Constraint);
                }
                let ghost held = row_views(table@);
                table.push(row);
                proof {
                    let now = row_views(table@);
                    assert(now =~= held.push(row@));
                    assert forall|a: int, b: int| 0 <= a < b < now.len() implies !keyed(
                        #[trigger] now[a],
                        (#[trigger] now[b]).title,
                        now[b].project,
                    ) by {
                        if b == held.len() {
                            assert(!keyed(held[a], row@.title, row@.project));
                        } else {
                            assert(!keyed(held[a], held[b].title, held[b].project));
                        }
                    }
                    assert(now =~= before + records_of(given.take(i + 1)));
                }
            }
            i += 1;
        }
        assert(given.take(n as int) =~= given);
        self.put_table(table);
        Ok(())
    }

    /// Rebuild from what the readers of the note files hand over: for each
    /// file the file as read, or nothing where reading failed. One failed
    /// read stops the rebuild before it begins, and the table is as it was;
    /// with every file read, the rebuild is that of `generate`.
    pub fn generate_from(&mut self, reads: &Vec<Option<NoteFile>>) -> (done: Result<(), StoreError>)
        ensures
            final(self).location() == old(self).location(),
            unique_keys(final(self)@),
            done is Err ==> final(self)@ == old(self)@,
            !all_read(reads@) ==> done == Err::<(), StoreError>(StoreError::Channel),
            all_read(reads@) ==> ({
                let after = old(self)@ + records_of(files_read(reads@));
                if unique_keys(after) {
                    done == Ok::<(), StoreError>(()) && final(self)@ == after
                } else {
                    done == Err::<(), StoreError>(StoreError::Constraint)
                }
            }),
    {
        proof {
            use_type_invariant(&*self);
        }
        let mut files: Vec<NoteFile> = Vec::new();
        let n: usize = reads.len();
        let mut i: usize = 0;
        assert(file_views(files@) =~= files_read(reads@.take(0)));
        while i < n
            invariant
                n == reads@.len(),
                i <= n,
                self@ == old(self)@,
                self.location() == old(self).location(),
                unique_keys(self@),
                forall|k: int| 0 <= k < i ==> (#[trigger] reads@[k]) is Some,
                file_views(files@) == files_read(reads@.take(i as int)),
            decreases n - i,
        {
            match &reads[i] {
                None => {
                    return Err(StoreError::Channel);
                },
                Some(file) => {
                    let copy = NoteFile { path: file.path.clone(), contents: file.contents.clone() };
                    let ghost so_far = files@;
                    files.push(copy);
                    proof {
                        assert(copy@ == reads@[i as int].unwrap()@);
                        assert(file_views(files@) =~= file_views(so_far).push(copy@));
                        assert(reads@.take(i + 1) =~= reads@.take(i as int).push(reads@[i as int]));
                        assert(files_read(reads@.take(i as int).push(reads@[i as int])) =~= files_read(
                            reads@.take(i as int),
                        ).push(reads@[i as int].unwrap()@));
                    }
                },
            }
            i += 1;
        }
        assert(reads@.take(n as int) =~= reads@);
        self.generate(&files)
    }
}

/// Whether one of the lists holds `name`.
fn mentioned(lists: &Vec<Vec<String>>, name: &String) -> (found: bool)
    ensures
        found == exists|k: int| 0 <= k < lists@.len() && texts((#[trigger] lists@[k])@).contains(name@),
{
    let n: usize = lists.len();
    let mut i: usize = 0;
    while i < n
        invariant
            n == lists@.len(),
            i <= n,
            forall|k: int| 0 <= k < i ==> !texts((#[trigger] lists@[k])@).contains(name@),
        decreases n - i,
    {
        let list = &lists[i];
        let m: usize = list.len();
        let mut j: usize = 0;
        while j < m
            invariant
                m == list@.len(),
                j <= m,
                i < lists@.len(),
                list@ == lists@[i as int]@,
                forall|k: int| 0 <= k < j ==> list@[k]@ != name@,
            decreases m - j,
        {
            if list[j] == *name {
                assert(texts(lists@[i as int]@)[j as int] == name@);
                return true;
            }
            j += 1;
        }
        assert(!texts(list@).contains(name@)) by {
            if texts(list@).contains(name@) {
                let k = choose|k: int| 0 <= k < texts(list@).len() && texts(list@)[k] == name@;
                assert(list@[k]@ == name@);
            }
        }
        i += 1;
    }
    false
}

/// A kind of name that the rows hold.
enum Listing {
    Tags,
    Links,
    Projects,
}

impl Listing {
    /// What a row holds of this kind.
    spec fn pick(self) -> spec_fn(RowView) -> Seq<Seq<char>> {
        match self {
            Listing::Tags => row_tags(),
            Listing::Links => row_links(),
            Listing::Projects => row_project(),
        }
    }
}

/// A column of the table that patterns are matched against.
enum Column {
    Title,
    Links,
    Tags,
}

impl Column {
    /// The text that the column holds in `row`.
    spec fn of(self, row: RowView) -> Seq<char> {
        match self {
            Column::Title => row.title,
            Column::Links => row.links,
            Column::Tags => row.tags,
        }
    }
}

/// The pattern that finds `token` as a whole entry of a stored list.
fn whole_token(token: &str) -> (pattern: String)
    ensures
        pattern@ == token_pattern(token@),
{
    proof {
        reveal_strlit("%");
        reveal_strlit("::");
    }
    assert(SQL_ARRAY_SEPARATOR@ =~= separator());
    assert("%"@ =~= seq!['%']);
    let mut pattern: String = String::from_str("%");
    pattern.append(SQL_ARRAY_SEPARATOR);
    pattern.append(token);
    pattern.append(SQL_ARRAY_SEPARATOR);
    pattern.append("%");
    pattern
}

} // verus!
