use zettel_index::{ConfigOptions, Database, NoteFile, StoreError, Zettel};

fn strings(items: &[&str]) -> Vec<String> {
    items.iter().map(|s| s.to_string()).collect()
}

fn note(title: &str, project: &str, links: &[&str], tags: &[&str]) -> Zettel {
    Zettel {
        title: title.to_string(),
        project: project.to_string(),
        links: strings(links),
        tags: strings(tags),
    }
}

fn file(path: &str, contents: &str) -> NoteFile {
    NoteFile { path: path.to_string(), contents: contents.to_string() }
}

fn titles(found: &[Zettel]) -> Vec<String> {
    found.iter().map(|z| z.title.clone()).collect()
}

fn sorted(mut items: Vec<String>) -> Vec<String> {
    items.sort();
    items
}

fn garden() -> Database {
    let mut db = Database::new("garden.db");
    db.save(&note("Roses", "garden", &["Soil", "Water"], &["plants", "red"])).unwrap();
    db.save(&note("Soil", "garden", &[], &["ground"])).unwrap();
    db.save(&note("Tulips", "garden", &["Soil", "Bulbs"], &["plants"])).unwrap();
    db.save(&note("Inbox", "", &[], &[])).unwrap();
    db.save(&note("Recipes", "kitchen", &["Water"], &["food", "plants1"])).unwrap();
    db
}

#[test]
fn new_index_is_empty_and_knows_its_place() {
    let db = Database::new("notes.db");
    assert_eq!(db.uri(), "notes.db");
    assert!(db.all().is_empty());
    assert!(db.list_tags().is_empty());
    assert!(db.list_projects().is_empty());
    assert!(db.zettel_not_yet_created().is_empty());
    assert!(db.isolated().is_empty());
}

#[test]
fn index_in_memory_is_named_by_a_shared_cache_uri() {
    let db = Database::new_in_memory("scratch");
    assert_eq!(db.uri(), "file:scratch?mode=memory&cache=shared");
    assert!(db.all().is_empty());
}

#[test]
fn saved_note_is_found_by_its_title_as_it_went_in() {
    let mut db = Database::new("notes.db");
    let zettel = note("A", "p", &["B", "C", "B"], &["x", "y"]);
    assert_eq!(db.save(&zettel), Ok(()));
    let found = db.find_by_title("A");
    assert_eq!(found.len(), 1);
    assert_eq!(found[0], zettel);
    assert_eq!(sorted(found[0].links.clone()), strings(&["B", "B", "C"]));
    assert_eq!(sorted(found[0].tags.clone()), strings(&["x", "y"]));
}

#[test]
fn saved_note_with_an_empty_link_comes_back_without_it() {
    let mut db = Database::new("notes.db");
    db.save(&note("A", "p", &["", "B"], &[])).unwrap();
    let found = db.find_by_title("A");
    assert_eq!(found.len(), 1);
    assert_eq!(found[0].links, strings(&["B"]));
}

#[test]
fn second_note_with_the_same_title_and_project_is_refused() {
    let mut db = Database::new("notes.db");
    assert_eq!(db.save(&note("A", "p", &["B"], &[])), Ok(()));
    assert_eq!(db.save(&note("A", "p", &["C"], &["x"])), Err(StoreError::Constraint));
    let all = db.all();
    assert_eq!(all, vec![note("A", "p", &["B"], &[])]);
}

#[test]
fn same_title_in_another_project_is_another_note() {
    let mut db = Database::new("notes.db");
    assert_eq!(db.save(&note("A", "p", &[], &[])), Ok(()));
    assert_eq!(db.save(&note("A", "q", &[], &[])), Ok(()));
    assert_eq!(db.save(&note("a", "p", &[], &[])), Ok(()));
    assert_eq!(db.all().len(), 3);
    assert_eq!(db.find_by_title("A").len(), 3);
    assert!(db.contains("A", "q"));
    assert!(!db.contains("A", "r"));
}

#[test]
fn all_returns_the_notes_in_the_order_of_their_rows() {
    let db = garden();
    assert_eq!(titles(&db.all()), strings(&["Roses", "Soil", "Tulips", "Inbox", "Recipes"]));
}

#[test]
fn title_patterns_use_wildcards() {
    let db = garden();
    assert_eq!(titles(&db.find_by_title("%")).len(), 5);
    assert_eq!(titles(&db.find_by_title("%s")), strings(&["Roses", "Tulips", "Recipes"]));
    assert_eq!(titles(&db.find_by_title("r%")), strings(&["Roses", "Recipes"]));
    assert_eq!(titles(&db.find_by_title("S_il")), strings(&["Soil"]));
    assert_eq!(titles(&db.find_by_title("soil")), strings(&["Soil"]));
    assert!(db.find_by_title("Soi").is_empty());
    assert!(db.find_by_title("").is_empty());
    assert!(db.has_title_like("T%"));
    assert!(!db.has_title_like("X%"));
}

#[test]
fn delete_removes_the_row_of_the_note() {
    let mut db = garden();
    db.delete(&note("Soil", "garden", &[], &[]));
    assert_eq!(titles(&db.all()), strings(&["Roses", "Tulips", "Inbox", "Recipes"]));
    assert!(!db.contains("Soil", "garden"));
}

#[test]
fn delete_of_an_absent_note_changes_nothing() {
    let mut db = garden();
    db.delete(&note("Soil", "kitchen", &[], &[]));
    db.delete(&note("Nowhere", "garden", &[], &[]));
    assert_eq!(db.all(), garden().all());
}

#[test]
fn deleted_note_can_be_saved_again() {
    let mut db = garden();
    db.delete(&note("Soil", "garden", &[], &[]));
    assert_eq!(db.save(&note("Soil", "garden", &["Worms"], &[])), Ok(()));
    assert_eq!(titles(&db.all()), strings(&["Roses", "Tulips", "Inbox", "Recipes", "Soil"]));
}

#[test]
fn tag_query_finds_whole_tags_only() {
    let mut db = Database::new("notes.db");
    db.save(&note("One", "", &[], &["tag1"])).unwrap();
    db.save(&note("Two", "", &[], &["tag"])).unwrap();
    db.save(&note("Three", "", &[], &["atag", "other"])).unwrap();
    assert_eq!(titles(&db.find_by_tag("tag")), strings(&["Two"]));
    assert_eq!(titles(&db.find_by_tag("tag1")), strings(&["One"]));
    assert_eq!(titles(&db.find_by_tag("other")), strings(&["Three"]));
    assert!(db.find_by_tag("ta").is_empty());
    assert!(db.find_by_tag("").is_empty());
}

#[test]
fn tag_query_ignores_letter_case() {
    let db = garden();
    assert_eq!(titles(&db.find_by_tag("PLANTS")), strings(&["Roses", "Tulips"]));
}

#[test]
fn underscore_in_a_tag_query_is_a_wildcard() {
    let mut db = Database::new("notes.db");
    db.save(&note("One", "", &[], &["my_tag"])).unwrap();
    db.save(&note("Two", "", &[], &["my-tag"])).unwrap();
    assert_eq!(titles(&db.find_by_tag("my_tag")), strings(&["One", "Two"]));
}

#[test]
fn backlinks_are_the_notes_that_link_to_a_title() {
    let db = garden();
    assert_eq!(titles(&db.find_by_links_to("Soil")), strings(&["Roses", "Tulips"]));
    assert_eq!(titles(&db.find_by_links_to("Water")), strings(&["Roses", "Recipes"]));
    assert!(db.find_by_links_to("Roses").is_empty());
    assert!(db.find_by_links_to("Soi").is_empty());
    assert!(db.find_by_links_to("oil").is_empty());
}

#[test]
fn tags_are_listed_sorted_and_once() {
    let db = garden();
    assert_eq!(db.list_tags(), strings(&["food", "ground", "plants", "plants1", "red"]));
}

#[test]
fn projects_are_listed_sorted_and_once_without_the_unnamed_one() {
    let db = garden();
    assert_eq!(db.list_projects(), strings(&["garden", "kitchen"]));
}

#[test]
fn ghosts_are_the_links_without_a_note() {
    let db = garden();
    assert_eq!(db.zettel_not_yet_created(), strings(&["Bulbs", "Water"]));
}

#[test]
fn ghosts_are_sorted_and_listed_once() {
    let mut db = Database::new("notes.db");
    db.save(&note("A", "", &["z", "b", "z", "A"], &[])).unwrap();
    db.save(&note("B", "", &["m", "b", "z"], &[])).unwrap();
    assert_eq!(db.zettel_not_yet_created(), strings(&["m", "z"]));
}

#[test]
fn link_with_a_wildcard_is_no_ghost_if_a_title_matches_it() {
    let mut db = Database::new("notes.db");
    db.save(&note("A", "", &["B%", "C%"], &[])).unwrap();
    db.save(&note("Bees", "", &[], &[])).unwrap();
    assert_eq!(db.zettel_not_yet_created(), strings(&["C%"]));
}

#[test]
fn isolated_notes_have_no_links_in_or_out() {
    let db = garden();
    assert_eq!(titles(&db.isolated()), strings(&["Inbox"]));
}

#[test]
fn linked_note_and_linking_note_are_not_isolated() {
    let mut db = Database::new("notes.db");
    db.save(&note("A", "", &["B"], &[])).unwrap();
    db.save(&note("B", "", &[], &[])).unwrap();
    db.save(&note("C", "", &[], &["lonely"])).unwrap();
    db.save(&note("D", "", &["Ghost"], &[])).unwrap();
    assert_eq!(titles(&db.isolated()), strings(&["C"]));
}

#[test]
fn project_of_a_note_is_changed_in_place() {
    let mut db = garden();
    assert_eq!(db.change_project(&note("Soil", "garden", &[], &[]), "shed"), Ok(()));
    assert_eq!(titles(&db.all()), strings(&["Roses", "Soil", "Tulips", "Inbox", "Recipes"]));
    let soil = &db.find_by_title("Soil")[0];
    assert_eq!(soil.project, "shed");
    assert_eq!(soil.tags, strings(&["ground"]));
    assert!(db.contains("Soil", "shed"));
    assert!(!db.contains("Soil", "garden"));
}

#[test]
fn title_of_a_note_is_changed_in_place() {
    let mut db = garden();
    assert_eq!(db.change_title(&note("Roses", "garden", &[], &[]), "Red roses"), Ok(()));
    assert_eq!(titles(&db.all()), strings(&["Red roses", "Soil", "Tulips", "Inbox", "Recipes"]));
    let roses = &db.find_by_title("Red roses")[0];
    assert_eq!(roses.project, "garden");
    assert_eq!(roses.links, strings(&["Soil", "Water"]));
    assert_eq!(roses.tags, strings(&["plants", "red"]));
}

#[test]
fn change_of_an_absent_note_changes_nothing() {
    let mut db = garden();
    assert_eq!(db.change_project(&note("Nowhere", "garden", &[], &[]), "shed"), Ok(()));
    assert_eq!(db.change_title(&note("Nowhere", "garden", &[], &[]), "Somewhere"), Ok(()));
    assert_eq!(db.all(), garden().all());
}

#[test]
fn change_to_its_own_project_or_title_changes_nothing() {
    let mut db = garden();
    assert_eq!(db.change_project(&note("Soil", "garden", &[], &[]), "garden"), Ok(()));
    assert_eq!(db.change_title(&note("Soil", "garden", &[], &[]), "Soil"), Ok(()));
    assert_eq!(db.all(), garden().all());
}

#[test]
fn change_onto_another_note_is_refused() {
    let mut db = garden();
    db.save(&note("Soil", "shed", &[], &[])).unwrap();
    let before = db.all();
    assert_eq!(
        db.change_project(&note("Soil", "garden", &[], &[]), "shed"),
        Err(StoreError::Constraint)
    );
    assert_eq!(
        db.change_title(&note("Roses", "garden", &[], &[]), "Tulips"),
        Err(StoreError::Constraint)
    );
    assert_eq!(db.all(), before);
}

#[test]
fn snapshot_holds_the_same_notes_at_another_place() {
    let db = garden();
    let mut copy = db.write_to("backup.db");
    assert_eq!(copy.uri(), "backup.db");
    assert_eq!(copy.all(), db.all());
    copy.delete(&note("Soil", "garden", &[], &[]));
    assert_eq!(db.all().len(), 5);
    assert_eq!(copy.all().len(), 4);
}

#[test]
fn update_reads_the_note_anew() {
    let cfg = ConfigOptions::new("zk", "");
    let mut db = garden();
    let soil = note("Soil", "garden", &[], &[]);
    assert_eq!(db.update(&cfg, &soil, "[[Worms]] #ground #alive "), Ok(()));
    assert_eq!(titles(&db.all()), strings(&["Roses", "Tulips", "Inbox", "Recipes", "Soil"]));
    let found = &db.find_by_title("Soil")[0];
    assert_eq!(found.project, "garden");
    assert_eq!(found.links, strings(&["Worms"]));
    assert_eq!(found.tags, strings(&["ground", "alive"]));
}

#[test]
fn update_of_a_note_without_project_keeps_it_there() {
    let cfg = ConfigOptions::new("zk", "");
    let mut db = garden();
    assert_eq!(db.update(&cfg, &note("Inbox", "", &[], &[]), "#later "), Ok(()));
    let found = &db.find_by_title("Inbox")[0];
    assert_eq!(found.project, "");
    assert_eq!(found.tags, strings(&["later"]));
}

#[test]
fn update_of_an_absent_note_stores_it() {
    let cfg = ConfigOptions::new("zk", "");
    let mut db = Database::new("notes.db");
    assert_eq!(db.update(&cfg, &note("New", "p", &[], &[]), "[[A]]"), Ok(()));
    assert_eq!(db.all(), vec![note("New", "p", &["A"], &[])]);
}

#[test]
fn update_that_lands_on_another_note_is_refused_after_the_delete() {
    let cfg = ConfigOptions::new("zk", "");
    let mut db = Database::new("notes.db");
    db.save(&note("a", "x", &[], &[])).unwrap();
    db.save(&note("x/a", "p", &[], &[])).unwrap();
    assert_eq!(db.update(&cfg, &note("x/a", "p", &[], &[]), ""), Err(StoreError::Constraint));
    assert_eq!(db.all(), vec![note("a", "x", &[], &[])]);
}

#[test]
fn rebuild_of_two_files() {
    let mut db = Database::new("notes.db");
    let files = vec![file("root/A.md", "[[B]] #x "), file("root/B.md", "")];
    assert_eq!(db.generate(&files), Ok(()));
    let a = db.find_by_title("A");
    assert_eq!(a.len(), 1);
    assert_eq!(a[0].links, strings(&["B"]));
    assert_eq!(a[0].tags, strings(&["x"]));
    let b = db.find_by_title("B");
    assert_eq!(b.len(), 1);
    assert!(b[0].links.is_empty());
    assert!(b[0].tags.is_empty());
    assert!(db.zettel_not_yet_created().is_empty());
    assert_eq!(titles(&db.find_by_links_to("B")), strings(&["A"]));
    assert!(db.isolated().is_empty());
}

#[test]
fn rebuild_leaves_hidden_files_out() {
    let mut db = Database::new("notes.db");
    let files = vec![
        file("zk/p/.md", "[[X]]"),
        file("zk/p/Seen.md", ""),
        file("zk/p/.hidden.md", "#t "),
        file("zk/.q/Also seen.md", ""),
    ];
    assert_eq!(db.generate(&files), Ok(()));
    assert_eq!(db.all(), vec![note("Seen", "p", &[], &[]), note("Also seen", ".q", &[], &[])]);
}

#[test]
fn rebuild_names_the_project_after_the_directory() {
    let mut db = Database::new("notes.db");
    let files = vec![file("zk/garden/Roses.md", ""), file("zk/Top.md", ""), file("Bare.md", "")];
    assert_eq!(db.generate(&files), Ok(()));
    assert_eq!(
        db.all(),
        vec![note("Roses", "garden", &[], &[]), note("Top", "zk", &[], &[]), note("Bare", "", &[], &[])]
    );
}

#[test]
fn rebuild_that_fails_midway_leaves_the_index_as_it_was() {
    let mut db = garden();
    let before = db.all();
    let files = vec![
        file("zk/garden/Ferns.md", "[[Soil]]"),
        file("zk/garden/Moss.md", ""),
        file("zk/garden/Soil.md", "clashes with the stored note"),
        file("zk/garden/Ivy.md", ""),
    ];
    assert_eq!(db.generate(&files), Err(StoreError::Constraint));
    assert_eq!(db.all(), before);
    assert!(!db.contains("Ferns", "garden"));
}

#[test]
fn rebuild_with_the_same_note_twice_is_refused() {
    let mut db = Database::new("notes.db");
    let files = vec![file("zk/p/A.md", ""), file("zk/p/B.md", ""), file("other/p/A.txt", "")];
    assert_eq!(db.generate(&files), Err(StoreError::Constraint));
    assert!(db.all().is_empty());
}

#[test]
fn second_rebuild_of_the_same_files_is_refused() {
    let mut db = Database::new("notes.db");
    let files = vec![file("root/A.md", "[[B]] #x "), file("root/B.md", "")];
    assert_eq!(db.generate(&files), Ok(()));
    let before = db.all();
    assert_eq!(db.generate(&files), Err(StoreError::Constraint));
    assert_eq!(db.all(), before);
}

#[test]
fn rebuild_adds_to_the_notes_that_are_there() {
    let mut db = garden();
    assert_eq!(db.generate(&vec![file("zk/garden/Ferns.md", "#plants ")]), Ok(()));
    assert_eq!(
        titles(&db.all()),
        strings(&["Roses", "Soil", "Tulips", "Inbox", "Recipes", "Ferns"])
    );
    assert_eq!(db.generate(&Vec::new()), Ok(()));
    assert_eq!(db.all().len(), 6);
}

#[test]
fn rebuild_from_reads_that_all_succeeded_is_a_rebuild() {
    let mut db = Database::new("notes.db");
    let reads = vec![Some(file("root/A.md", "[[B]] #x ")), Some(file("root/B.md", ""))];
    assert_eq!(db.generate_from(&reads), Ok(()));
    let mut same = Database::new("notes.db");
    same.generate(&vec![file("root/A.md", "[[B]] #x "), file("root/B.md", "")]).unwrap();
    assert_eq!(db.all(), same.all());
    assert_eq!(db.all(), vec![note("A", "root", &["B"], &["x"]), note("B", "root", &[], &[])]);
}

#[test]
fn rebuild_with_a_failed_read_is_given_up_and_changes_nothing() {
    let mut db = garden();
    let before = db.all();
    let reads = vec![Some(file("zk/garden/Ferns.md", "")), None, Some(file("zk/garden/Ivy.md", ""))];
    assert_eq!(db.generate_from(&reads), Err(StoreError::Channel));
    assert_eq!(db.all(), before);
    assert!(!db.contains("Ferns", "garden"));
    assert!(!db.contains("Ivy", "garden"));
}

#[test]
fn failed_read_counts_before_a_clash_of_notes() {
    let mut db = garden();
    let before = db.all();
    let reads = vec![Some(file("zk/garden/Soil.md", "")), None];
    assert_eq!(db.generate_from(&reads), Err(StoreError::Channel));
    assert_eq!(db.all(), before);
}

#[test]
fn rebuild_from_reads_with_a_clash_is_refused() {
    let mut db = garden();
    let before = db.all();
    let reads = vec![Some(file("zk/garden/Ferns.md", "")), Some(file("zk/garden/Soil.md", ""))];
    assert_eq!(db.generate_from(&reads), Err(StoreError::Constraint));
    assert_eq!(db.all(), before);
}

#[test]
fn rebuild_from_no_reads_changes_nothing() {
    let mut db = garden();
    assert_eq!(db.generate_from(&Vec::new()), Ok(()));
    assert_eq!(db.all(), garden().all());
}
