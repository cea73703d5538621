use zettel_index::pattern::groups_as_strings;
use zettel_index::zettel::{fill_template, find_links, find_tags};
use zettel_index::{ConfigOptions, StoreError, StoredRow, Zettel};

fn strings(items: &[&str]) -> Vec<String> {
    items.iter().map(|s| s.to_string()).collect()
}

fn text_row(title: &str, project: &str, links: &str, tags: &str) -> StoredRow {
    StoredRow {
        title: Some(title.to_string()),
        project: Some(project.to_string()),
        links: Some(links.to_string()),
        tags: Some(tags.to_string()),
    }
}

#[test]
fn new_note_has_no_links_and_tags() {
    let zettel = Zettel::new("Structs in rust", "inbox");
    assert_eq!(zettel.title, "Structs in rust");
    assert_eq!(zettel.project, "inbox");
    assert!(zettel.links.is_empty());
    assert!(zettel.tags.is_empty());
}

#[test]
fn link_and_tag_are_extracted() {
    let contents = "see [[Other Note]] and #idea more text";
    assert_eq!(find_links(contents), strings(&["Other Note"]));
    assert_eq!(find_tags(contents), strings(&["idea"]));
}

#[test]
fn tag_at_the_end_without_white_space_is_not_a_tag() {
    assert_eq!(find_tags("a thought #idea"), Vec::<String>::new());
    assert_eq!(find_tags("#idea"), Vec::<String>::new());
    assert_eq!(find_tags("#idea\n"), strings(&["idea"]));
}

#[test]
fn text_without_links_and_tags_gives_none() {
    assert_eq!(find_links("nothing here"), Vec::<String>::new());
    assert_eq!(find_tags("nothing here"), Vec::<String>::new());
    assert_eq!(find_links(""), Vec::<String>::new());
    assert_eq!(find_tags(""), Vec::<String>::new());
}

#[test]
fn malformed_brackets_give_no_link() {
    assert_eq!(find_links("[[open only"), Vec::<String>::new());
    assert_eq!(find_links("[single] ]] [["), Vec::<String>::new());
    assert_eq!(find_links("[[over\nlines]]"), Vec::<String>::new());
}

#[test]
fn links_come_in_their_order_and_shortest_first() {
    assert_eq!(find_links("[[A]] then [[B]] and [[A]]"), strings(&["A", "B", "A"]));
    assert_eq!(find_links("[[a]]b]]"), strings(&["a"]));
    assert_eq!(find_links("[[]]"), strings(&[""]));
}

#[test]
fn tags_may_hold_slashes_hyphens_and_underscores() {
    assert_eq!(
        find_tags("#note-taking #a/b #snake_case #x \n#ünï "),
        strings(&["note-taking", "a/b", "snake_case", "x", "ünï"])
    );
    assert_eq!(find_tags("#tag. #ok "), strings(&["ok"]));
}

#[test]
fn absent_group_counts_as_empty_text() {
    let found = Some(vec![Some("a".to_string()), None, Some("c".to_string())]);
    assert_eq!(groups_as_strings(found), strings(&["a", "", "c"]));
    assert_eq!(groups_as_strings(None), Vec::<String>::new());
    assert_eq!(groups_as_strings(Some(Vec::new())), Vec::<String>::new());
}

#[test]
fn note_is_read_from_path_and_text() {
    let zettel = Zettel::from_file("root/garden/Roses.md", "[[Soil]] and [[Water]] #plants #red ");
    assert_eq!(zettel.title, "Roses");
    assert_eq!(zettel.project, "garden");
    assert_eq!(zettel.links, strings(&["Soil", "Water"]));
    assert_eq!(zettel.tags, strings(&["plants", "red"]));
}

#[test]
fn note_of_a_bare_file_name_has_no_project() {
    let zettel = Zettel::from_file("Roses.md", "");
    assert_eq!(zettel.title, "Roses");
    assert_eq!(zettel.project, "");
    assert!(zettel.links.is_empty());
    assert!(zettel.tags.is_empty());
}

#[test]
fn filename_joins_directory_project_and_title() {
    let cfg = ConfigOptions::new("/home/me/zk", "/home/me/template.md");
    let zettel = Zettel::new("Structs in rust", "inbox");
    assert_eq!(zettel.filename(&cfg), "/home/me/zk/inbox/Structs in rust.md");
    let rootless = Zettel::new("Top", "");
    assert_eq!(rootless.filename(&cfg), "/home/me/zk//Top.md");
}

#[test]
fn filename_leads_back_to_the_note() {
    let cfg = ConfigOptions::new("zk", "");
    for (title, project) in [("A", "p"), ("Top", ""), ("a.b", "q")] {
        let zettel = Zettel::new(title, project);
        let again = Zettel::from_file(&zettel.filename(&cfg), "");
        assert_eq!(again.title, title);
        assert_eq!(again.project, project);
    }
}

#[test]
fn row_of_text_columns_is_read() {
    let zettel = Zettel::from_db(&text_row("A", "p", "::B::C::", "::x::")).unwrap();
    assert_eq!(zettel.title, "A");
    assert_eq!(zettel.project, "p");
    assert_eq!(zettel.links, strings(&["B", "C"]));
    assert_eq!(zettel.tags, strings(&["x"]));
}

#[test]
fn row_with_a_column_that_is_not_text_is_refused() {
    let mut row = text_row("A", "p", "::", "::");
    row.project = None;
    assert_eq!(Zettel::from_db(&row), Err(StoreError::RowAccess));
    let mut row = text_row("A", "p", "::", "::");
    row.title = None;
    assert_eq!(Zettel::from_db(&row), Err(StoreError::RowAccess));
    let mut row = text_row("A", "p", "::", "::");
    row.links = None;
    assert_eq!(Zettel::from_db(&row), Err(StoreError::RowAccess));
    let mut row = text_row("A", "p", "::", "::");
    row.tags = None;
    assert_eq!(Zettel::from_db(&row), Err(StoreError::RowAccess));
}

#[test]
fn text_is_searched_without_regard_to_case() {
    let zettel = Zettel::new("A", "");
    assert_eq!(zettel.has_text("Roses are red", "rOSES"), Some(true));
    assert_eq!(zettel.has_text("Roses are red", "r.d$"), Some(true));
    assert_eq!(zettel.has_text("Roses are red", "blue"), Some(false));
    assert_eq!(zettel.has_text("", "x"), Some(false));
}

#[test]
fn text_that_is_no_regular_expression_is_not_searched() {
    let zettel = Zettel::new("A", "");
    assert_eq!(zettel.has_text("Roses (red", "(red"), None);
}

#[test]
fn template_gets_title_and_date() {
    let out = fill_template("# ${TITLE}\n${DATE} – ${TITLE}\n", "Roses", "2024-02-29");
    assert_eq!(out, "# Roses\n2024-02-29 – Roses\n");
}

#[test]
fn template_without_placeholders_stays() {
    assert_eq!(fill_template("plain $TITLE {DATE}", "Roses", "2024-02-29"), "plain $TITLE {DATE}");
    assert_eq!(fill_template("", "Roses", "2024-02-29"), "");
}

#[test]
fn template_of_a_note_gets_its_title_and_the_date() {
    let zettel = Zettel::new("Roses", "garden");
    let out = zettel.replace_template_placeholders("${TITLE} on ${DATE}", "2024-02-29");
    assert_eq!(out, "Roses on 2024-02-29");
    assert_eq!(zettel.replace_template_placeholders("nothing to fill", "2024-02-29"), "nothing to fill");
}

#[test]
fn dollar_references_in_the_title_are_expanded() {
    let zettel = Zettel::new("cost $0 today", "");
    assert_eq!(zettel.replace_template_placeholders("${TITLE}", "d"), "cost ${TITLE} today");
}

#[test]
fn store_errors_say_what_went_wrong() {
    assert_eq!(StoreError::Connection.message(), "the store could not be reached");
    assert_eq!(
        StoreError::Constraint.message(),
        "a note with this title and project is already stored"
    );
    assert_eq!(StoreError::RowAccess.message(), "a stored row is malformed");
    assert_eq!(StoreError::Channel.message(), "the rebuild pipeline broke down");
}
