use zettel_index::sorting::sorted_unique;

fn strings(items: &[&str]) -> Vec<String> {
    items.iter().map(|s| s.to_string()).collect()
}

#[test]
fn names_are_sorted_and_kept_once() {
    let names = strings(&["pear", "apple", "fig", "apple", "pear", "pear"]);
    assert_eq!(sorted_unique(names), strings(&["apple", "fig", "pear"]));
}

#[test]
fn empty_list_stays_empty() {
    assert_eq!(sorted_unique(Vec::new()), Vec::<String>::new());
}

#[test]
fn order_is_by_code_point() {
    let names = strings(&["b", "a", "B", "ab", "", "é", "z"]);
    assert_eq!(sorted_unique(names), strings(&["", "B", "a", "ab", "b", "z", "é"]));
}

#[test]
fn names_that_differ_in_case_are_both_kept() {
    let names = strings(&["Tag", "tag", "Tag"]);
    assert_eq!(sorted_unique(names), strings(&["Tag", "tag"]));
}
