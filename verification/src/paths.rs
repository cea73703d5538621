//! What a note's path says about it: the file's name, the name without its
//! extension, and the name of the directory the file lies in. Paths are
//! plain text with `/` between their parts.

use vstd::prelude::*;
use vstd::string::StringExecFns;
use crate::text::{chars_of, has_char};

verus! {

/// The last position at which `c` stands in `s`, or -1 if it stands nowhere.
pub open spec fn last_index_of(s: Seq<char>, c: char) -> int
    decreases s.len(),
{
    if s.len() == 0 {
        -1
    } else if s.last() == c {
        s.len() - 1
    } else {
        last_index_of(s.drop_last(), c)
    }
}

/// The part of `path` behind its last `/`; the whole of it without one.
pub open spec fn file_name(path: Seq<char>) -> Seq<char> {
    path.skip(last_index_of(path, '/') + 1)
}

/// The file's name up to its last `.`; the whole name without one.
pub open spec fn file_stem(path: Seq<char>) -> Seq<char> {
    let name = file_name(path);
    let dot = last_index_of(name, '.');
    if dot < 0 {
        name
    } else {
        name.take(dot)
    }
}

/// The name of the directory that the file lies in: the part of `path`
/// between its last two `/`, or before its only one. A path without `/`
/// names no directory, and the result is empty.
pub open spec fn parent_name(path: Seq<char>) -> Seq<char> {
    let slash = last_index_of(path, '/');
    if slash < 0 {
        Seq::empty()
    } else {
        file_name(path.take(slash))
    }
}

/// Whether the file's name begins with a dot.
pub open spec fn hidden(path: Seq<char>) -> bool {
    file_name(path).len() > 0 && file_name(path)[0] == '.'
}

/// The place of a note's file: the directory of the notes, the project and
/// the title with the extension `.md`, with `/` between them.
pub open spec fn note_path(base: Seq<char>, project: Seq<char>, title: Seq<char>) -> Seq<char> {
    base + "/"@ + project + "/"@ + title + ".md"@
}

/// Where `c` stands at `at` and nowhere behind it, `at` is its last position.
pub proof fn lemma_last_index_is(s: Seq<char>, c: char, at: int)
    requires
        0 <= at < s.len(),
        s[at] == c,
        forall|i: int| at < i < s.len() ==> s[i] != c,
    ensures
        last_index_of(s, c) == at,
    decreases s.len(),
{
    if at < s.len() - 1 {
        assert(s.drop_last()[at] == s[at]);
        assert forall|i: int| at < i < s.drop_last().len() implies s.drop_last()[i] != c by {
            assert(s.drop_last()[i] == s[i]);
        }
        lemma_last_index_is(s.drop_last(), c, at);
    }
}

/// A note whose title and project hold no `/` is found again behind the path
/// of its file: the file's name without its extension is the title, and the
/// name of the directory is the project.
pub proof fn lemma_note_path_leads_back(base: Seq<char>, project: Seq<char>, title: Seq<char>)
    requires
        !has_char(title, '/'),
        !has_char(project, '/'),
    ensures
        file_stem(note_path(base, project, title)) == title,
        parent_name(note_path(base, project, title)) == project,
{
    reveal_strlit("/");
    reveal_strlit(".md");
    let path = note_path(base, project, title);
    let first = base.len() as int;
    let second = first + 1 + project.len();
    let dot = second + 1 + title.len();
    assert("/"@.len() == 1 && "/"@[0] == '/');
    assert(".md"@.len() == 3 && ".md"@[0] == '.' && ".md"@[1] == 'm' && ".md"@[2] == 'd');
    assert(path.len() == dot + 3);
    assert(path[second] == '/');
    assert forall|i: int| second < i < path.len() implies path[i] != '/' by {
        if i < dot {
            assert(path[i] == title[i - second - 1]);
        }
    }
    lemma_last_index_is(path, '/', second);
    let name = file_name(path);
    assert(name =~= title + ".md"@);
    assert(name[title.len() as int] == '.');
    lemma_last_index_is(name, '.', title.len() as int);
    assert(name.take(title.len() as int) =~= title);
    let dir = path.take(second);
    assert(dir =~= base + "/"@ + project);
    assert(dir[first] == '/');
    assert forall|i: int| first < i < dir.len() implies dir[i] != '/' by {
        assert(dir[i] == project[i - first - 1]);
    }
    lemma_last_index_is(dir, '/', first);
    assert(dir.skip(first + 1) =~= project);
}

/// The last position before `end` at which `c` stands.
fn last_position(chars: &Vec<char>, end: usize, c: char) -> (at: Option<usize>)
    requires
        end <= chars@.len(),
    ensures
        match at {
            Some(i) => i < end && i == last_index_of(chars@.take(end as int), c),
            None => last_index_of(chars@.take(end as int), c) == -1,
        },
{
    let mut k: usize = end;
    while k > 0
        invariant
            k <= end <= chars@.len(),
            last_index_of(chars@.take(end as int), c) == last_index_of(chars@.take(k as int), c),
        decreases k,
    {
        if chars[k - 1] == c {
            return Some(k - 1);
        }
        assert(chars@.take(k as int).drop_last() =~= chars@.take(k - 1));
        k -= 1;
    }
    None
}

/// The name of the file that `path` leads to.
pub fn basename(path: &str) -> (name: String)
    ensures
        name@ == file_name(path@),
{
    let chars = chars_of(path);
    let n: usize = chars.len();
    assert(chars@.take(n as int) =~= chars@);
    let begin: usize = match last_position(&chars, n, '/') {
        Some(i) => i + 1,
        None => 0,
    };
    let name = String::from_str(path.substring_char(begin, n));
    assert(name@ =~= file_name(path@));
    name
}

/// The name of the file that `path` leads to, without its extension.
pub fn stem(path: &str) -> (name: String)
    ensures
        name@ == file_stem(path@),
{
    let full = basename(path);
    let chars = chars_of(full.as_str());
    let n: usize = chars.len();
    assert(chars@.take(n as int) =~= chars@);
    match last_position(&chars, n, '.') {
        Some(dot) => {
            let name = String::from_str(full.as_str().substring_char(0, dot));
            assert(name@ =~= file_stem(path@));
            name
        },
        None => full,
    }
}

/// The name of the directory that the file at `path` lies in.
pub fn parent(path: &str) -> (name: String)
    ensures
        name@ == parent_name(path@),
{
    let chars = chars_of(path);
    let n: usize = chars.len();
    assert(chars@.take(n as int) =~= chars@);
    match last_position(&chars, n, '/') {
        Some(slash) => {
            let begin: usize = match last_position(&chars, slash, '/') {
                Some(i) => i + 1,
                None => 0,
            };
            let name = String::from_str(path.substring_char(begin, slash));
            assert(name@ =~= parent_name(path@));
            name
        },
        None => String::new(),
    }
}

/// Whether the name of the file at `path` begins with a dot.
pub fn is_hidden(path: &str) -> (dotted: bool)
    ensures
        dotted == hidden(path@),
{
    let chars = chars_of(path);
    let n: usize = chars.len();
    assert(chars@.take(n as int) =~= chars@);
    let begin: usize = match last_position(&chars, n, '/') {
        Some(i) => i + 1,
        None => 0,
    };
    begin < n && chars[begin] == '.'
}

} // verus!
