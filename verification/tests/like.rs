use zettel_index::like::{folded, like, like_chars};

#[test]
fn plain_pattern_matches_equal_text_only() {
    assert!(like("note", "note"));
    assert!(!like("note", "notes"));
    assert!(!like("notes", "note"));
    assert!(!like("note", "nota"));
}

#[test]
fn empty_pattern_matches_empty_text_only() {
    assert!(like("", ""));
    assert!(!like("", "a"));
}

#[test]
fn percent_matches_any_run() {
    assert!(like("%", ""));
    assert!(like("%", "anything"));
    assert!(like("a%", "a"));
    assert!(like("a%", "abc"));
    assert!(!like("a%", "ba"));
    assert!(like("%c", "abc"));
    assert!(like("a%c", "ac"));
    assert!(like("a%c", "abbbc"));
    assert!(!like("a%c", "abcd"));
    assert!(like("%b%", "abc"));
    assert!(like("%a%b%", "xxaxxbxx"));
    assert!(!like("%a%b%", "xxbxxaxx"));
}

#[test]
fn underscore_matches_one_character() {
    assert!(like("_", "a"));
    assert!(!like("_", ""));
    assert!(!like("_", "ab"));
    assert!(like("a_c", "abc"));
    assert!(like("a_c", "a_c"));
    assert!(!like("a_c", "ac"));
    assert!(like("_", "é"));
}

#[test]
fn ascii_letters_match_in_either_case() {
    assert!(like("abc", "ABC"));
    assert!(like("ABC", "abc"));
    assert!(like("a%", "Apple"));
    assert!(!like("é", "É"));
}

#[test]
fn pattern_needs_backtracking() {
    assert!(like("%ab%ab", "abababab"));
    assert!(like("%aab", "aaaaab"));
    assert!(!like("%aab", "aaaaaba"));
}

#[test]
fn wildcard_text_matches_itself() {
    assert!(like("50%_off", "50%_off"));
    assert!(like("%", "%"));
    assert!(like("_", "_"));
}

#[test]
fn character_vectors_match_like_strings() {
    let pattern: Vec<char> = "a%".chars().collect();
    let text: Vec<char> = "abc".chars().collect();
    assert!(like_chars(&pattern, &text));
    assert!(!like_chars(&text, &pattern));
}

#[test]
fn folding_maps_upper_case_ascii_only() {
    assert_eq!(folded('A'), 'a' as u32);
    assert_eq!(folded('Z'), 'z' as u32);
    assert_eq!(folded('a'), 'a' as u32);
    assert_eq!(folded('@'), '@' as u32);
    assert_eq!(folded('['), '[' as u32);
    assert_eq!(folded(':'), 58);
    assert_eq!(folded('É'), 'É' as u32);
}
