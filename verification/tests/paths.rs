use zettel_index::paths::{basename, is_hidden, parent, stem};

#[test]
fn basename_is_the_part_behind_the_last_slash() {
    assert_eq!(basename("root/project/Note.md"), "Note.md");
    assert_eq!(basename("Note.md"), "Note.md");
    assert_eq!(basename("dir/"), "");
    assert_eq!(basename(""), "");
}

#[test]
fn stem_drops_the_extension() {
    assert_eq!(stem("root/project/Note.md"), "Note");
    assert_eq!(stem("root/A.md"), "A");
    assert_eq!(stem("root/a.b.md"), "a.b");
    assert_eq!(stem("root/no extension"), "no extension");
    assert_eq!(stem("dotted.dir/name"), "name");
    assert_eq!(stem("root/.md"), "");
}

#[test]
fn parent_is_the_directory_of_the_file() {
    assert_eq!(parent("root/project/Note.md"), "project");
    assert_eq!(parent("root/A.md"), "root");
    assert_eq!(parent("/A.md"), "");
    assert_eq!(parent("root//A.md"), "");
    assert_eq!(parent("A.md"), "");
}

#[test]
fn hidden_files_begin_with_a_dot() {
    assert!(is_hidden("root/.md"));
    assert!(is_hidden("root/p/.hidden.md"));
    assert!(is_hidden(".gitkeep"));
    assert!(!is_hidden("root/A.md"));
    assert!(!is_hidden(".dir/A.md"));
    assert!(!is_hidden("root/"));
    assert!(!is_hidden(""));
}
