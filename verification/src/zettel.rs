//! A note and what is read off it: its title and project from its path, its
//! links and tags from its text.

use vstd::prelude::*;
use vstd::string::StringExecFns;
use crate::codec::{decode, str_to_vec};
use crate::config::ConfigOptions;
use crate::error::StoreError;
use crate::paths::{file_stem, note_path, parent, parent_name, stem};
use crate::pattern::{
    captures_of_group, group_texts, groups_as_strings, matches_somewhere, regex_captures,
    regex_is_match, regex_replace_all, replace_all_matches,
};
use crate::text::texts;

verus! {

/// The regular expression for a link: two opening brackets, the shortest run
/// of characters that leads to two closing brackets, and those.
pub const LINK_PATTERN: &'static str = r"\[\[(.*?)\]\]";

/// The regular expression for a tag: a hash, then word characters, slashes,
/// hyphens and underscores, then white space.
pub const TAG_PATTERN: &'static str = r"#([\w/_-]+?)\s+";

/// The regular expression for the place of the title in a template.
pub const TITLE_PLACEHOLDER: &'static str = r"\$\{TITLE\}";

/// The regular expression for the place of the date in a template.
pub const DATE_PLACEHOLDER: &'static str = r"\$\{DATE\}";

/// The prefix that makes a regular expression blind to letter case.
pub const IGNORE_CASE: &'static str = "(?i)";

/// One note of the collection.
#[derive(Clone, Debug, PartialEq, Eq, PartialOrd, Ord)]
pub struct Zettel {
    /// The name of the note's file, without its extension.
    pub title: String,
    /// The name of the directory that the note lies in.
    pub project: String,
    /// The titles that the note refers to.
    pub links: Vec<String>,
    /// The labels that the note carries.
    pub tags: Vec<String>,
}

/// A note as contracts speak of it.
pub struct ZettelView {
    pub title: Seq<char>,
    pub project: Seq<char>,
    pub links: Seq<Seq<char>>,
    pub tags: Seq<Seq<char>>,
}

impl View for Zettel {
    type V = ZettelView;

    open spec fn view(&self) -> ZettelView {
        ZettelView {
            title: self.title@,
            project: self.project@,
            links: texts(self.links@),
            tags: texts(self.tags@),
        }
    }
}

/// A row as it comes out of the table: each column holds text or, where the
/// table holds something else there, nothing.
#[derive(Clone, Debug, PartialEq, Eq)]
pub struct StoredRow {
    pub title: Option<String>,
    pub project: Option<String>,
    pub links: Option<String>,
    pub tags: Option<String>,
}

/// The links that `contents` holds: for each match of the link pattern, the
/// text between the brackets.
pub open spec fn links_in(contents: Seq<char>) -> Seq<Seq<char>> {
    group_texts(regex_captures(LINK_PATTERN@, 1, contents))
}

/// The tags that `contents` holds: for each match of the tag pattern, the
/// text between the hash and the white space.
pub open spec fn tags_in(contents: Seq<char>) -> Seq<Seq<char>> {
    group_texts(regex_captures(TAG_PATTERN@, 1, contents))
}

/// `text` after `replacement` has taken the place of every match of
/// `pattern`; `text` itself if `pattern` is no regular expression.
pub open spec fn replaced(pattern: Seq<char>, text: Seq<char>, replacement: Seq<char>) -> Seq<char> {
    match regex_replace_all(pattern, text, replacement) {
        Some(out) => out,
        None => text,
    }
}

/// The template `contents` with the title and then the date filled in.
pub open spec fn filled_template(contents: Seq<char>, title: Seq<char>, date: Seq<char>) -> Seq<char> {
    replaced(DATE_PLACEHOLDER@, replaced(TITLE_PLACEHOLDER@, contents, title), date)
}

/// The wiki-style links in `contents`, in the order in which they stand.
pub fn find_links(contents: &str) -> (links: Vec<String>)
    ensures
        texts(links@) == links_in(contents@),
{
    groups_as_strings(captures_of_group(LINK_PATTERN, 1, contents))
}

/// The hashtags in `contents`, in the order in which they stand. A tag
/// counts only if white space follows it.
pub fn find_tags(contents: &str) -> (tags: Vec<String>)
    ensures
        texts(tags@) == tags_in(contents@),
{
    groups_as_strings(captures_of_group(TAG_PATTERN, 1, contents))
}

/// `text` with every match of `pattern` replaced.
fn replace_each(pattern: &str, text: &str, replacement: &str) -> (out: String)
    ensures
        out@ == replaced(pattern@, text@, replacement@),
{
    match replace_all_matches(pattern, text, replacement) {
        Some(out) => out,
        None => String::from_str(text),
    }
}

/// The template `contents` with `title` in the place of every title
/// placeholder and `date` in the place of every date placeholder.
pub fn fill_template(contents: &str, title: &str, date: &str) -> (out: String)
    ensures
        out@ == filled_template(contents@, title@, date@),
{
    let with_title = replace_each(TITLE_PLACEHOLDER, contents, title);
    replace_each(DATE_PLACEHOLDER, with_title.as_str(), date)
}

impl Zettel {
    /// A note with the given title and project, without links and tags.
    pub fn new(title: &str, project: &str) -> (zettel: Zettel)
        ensures
            zettel@ == (ZettelView {
                title: title@,
                project: project@,
                links: Seq::empty(),
                tags: Seq::empty(),
            }),
    {
        let zettel = Zettel {
            title: String::from_str(title),
            project: String::from_str(project),
            links: Vec::new(),
            tags: Vec::new(),
        };
        assert(texts(zettel.links@) =~= Seq::<Seq<char>>::empty());
        assert(texts(zettel.tags@) =~= Seq::<Seq<char>>::empty());
        zettel
    }

    /// The note that the file at `path` with the text `contents` holds: the
    /// title is the file's name without its extension, the project the name
    /// of the directory it lies in, links and tags are those of the text.
    pub fn from_file(path: &str, contents: &str) -> (zettel: Zettel)
        ensures
            zettel@ == (ZettelView {
                title: file_stem(path@),
                project: parent_name(path@),
                links: links_in(contents@),
                tags: tags_in(contents@),
            }),
    {
        Zettel {
            title: stem(path),
            project: parent(path),
            links: find_links(contents),
            tags: find_tags(contents),
        }
    }

    /// The note that a row of the table holds. A row with a column that is
    /// not text is refused.
    pub fn from_db(row: &StoredRow) -> (read: Result<Zettel, StoreError>)
        ensures
            match (row.title, row.project, row.links, row.tags) {
                (Some(title), Some(project), Some(links), Some(tags)) => read.is_ok() && read.unwrap()@
                    == (ZettelView {
                    title: title@,
                    project: project@,
                    links: decode(links@),
                    tags: decode(tags@),
                }),
                _ => read == Err::<Zettel, StoreError>(StoreError::RowAccess),
            },
    {
        match (&row.title, &row.project, &row.links, &row.tags) {
            (Some(title), Some(project), Some(links), Some(tags)) => Ok(
                Zettel {
                    title: title.clone(),
                    project: project.clone(),
                    links: str_to_vec(links.as_str()),
                    tags: str_to_vec(tags.as_str()),
                },
            ),
            _ => Err(StoreError::RowAccess),
        }
    }

    /// The path of the note's file: the directory of the notes, the project
    /// and the title with the extension `.md`, with `/` between them.
    pub fn filename(&self, cfg: &ConfigOptions) -> (path: String)
        ensures
            path@ == note_path(cfg.zettelkasten@, self.project@, self.title@),
    {
        let mut path: String = cfg.zettelkasten.clone();
        path.append("/");
        path.append(self.project.as_str());
        path.append("/");
        path.append(self.title.as_str());
        path.append(".md");
        path
    }

    /// Whether `contents`, the text of the note's file, holds a match of the
    /// regular expression `text`, letter case aside. `None` if `text` is no
    /// regular expression.
    pub fn has_text(&self, contents: &str, text: &str) -> (found: Option<bool>)
        ensures
            found == regex_is_match(IGNORE_CASE@ + text@, contents@),
    {
        let mut pattern: String = String::from_str(IGNORE_CASE);
        pattern.append(text);
        matches_somewhere(pattern.as_str(), contents)
    }

    /// The template `contents` with the note's title and `date` filled in.
    /// The caller reads the clock and writes the day out.
    pub fn replace_template_placeholders(&self, contents: &str, date: &str) -> (out: String)
        ensures
            out@ == filled_template(contents@, self.title@, date@),
    {
        fill_template(contents, self.title.as_str(), date)
    }
}

} // verus!
