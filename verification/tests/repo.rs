use rustpass::model::{Entry, VaultV1};
use rustpass::repo::{
    add_entry, count_matching_entries, edit_entry, edit_entry_by_id, eq_ignore_case, find_entry,
    find_entry_by_id, find_entry_mut, remove_entry, remove_entry_by_id,
};

fn empty_vault() -> VaultV1 {
    VaultV1 { created_at: 100, last_modified: 100, entries: Vec::new(), next_id: 1 }
}

fn named_entry(name: &str) -> (String, String, String, Option<String>) {
    (name.to_string(), "user".to_string(), "pw".to_string(), None)
}

#[test]
fn add_assigns_one_in_empty_vault_then_increments() {
    let mut v = empty_vault();
    let (n, u, p, no) = named_entry("first");
    let id1 = add_entry(&mut v, n, u, p, no);
    assert_eq!(id1, 1);
    let (n, u, p, no) = named_entry("second");
    let id2 = add_entry(&mut v, n, u, p, no);
    assert_eq!(id2, 2);
    let (n, u, p, no) = named_entry("third");
    let id3 = add_entry(&mut v, n, u, p, no);
    assert_eq!(id3, 3);
    assert_eq!(v.entries.len(), 3);
}

#[test]
fn ids_stay_unique_over_adds_and_removes() {
    let mut v = empty_vault();
    for k in 0..6 {
        let (n, u, p, no) = named_entry(&format!("e{}", k));
        add_entry(&mut v, n, u, p, no);
    }
    // Remove the entry holding the largest id ever assigned: the freed
    // maximum must never come back.
    assert!(remove_entry_by_id(&mut v, 6));
    assert!(remove_entry_by_id(&mut v, 2));
    let (n, u, p, no) = named_entry("late");
    let id = add_entry(&mut v, n, u, p, no);
    assert!(id > 6, "a freed maximal id must not be reassigned, got {}", id);
    assert_eq!(id, 7);
    for i in 0..v.entries.len() {
        for j in 0..v.entries.len() {
            if i != j {
                assert_ne!(v.entries[i].id, v.entries[j].id, "ids must stay unique");
            }
        }
    }
}

#[test]
fn removing_the_maximum_by_name_does_not_free_its_id() {
    let mut v = empty_vault();
    let (n, u, p, no) = named_entry("keep");
    assert_eq!(add_entry(&mut v, n, u, p, no), 1);
    let (n, u, p, no) = named_entry("drop");
    assert_eq!(add_entry(&mut v, n, u, p, no), 2);
    assert!(remove_entry(&mut v, "drop"));
    let (n, u, p, no) = named_entry("again");
    let id = add_entry(&mut v, n, u, p, no);
    assert_eq!(id, 3, "history ids 1 and 2 are spent; the next id is 3");
}

#[test]
fn find_by_name_is_case_insensitive() {
    let mut v = empty_vault();
    let (n, u, p, no) = named_entry("github");
    add_entry(&mut v, n, u, p, no);
    let found = find_entry(&v, "GitHub").expect("case-insensitive lookup must find the entry");
    assert_eq!(found.name, "github");
    assert!(find_entry(&v, "gitlab").is_none());
}

#[test]
fn find_returns_first_match_in_insertion_order() {
    let mut v = empty_vault();
    let id_a = add_entry(
        &mut v,
        "Dup".to_string(),
        "first-user".to_string(),
        "pw1".to_string(),
        None,
    );
    let _id_b = add_entry(
        &mut v,
        "dup".to_string(),
        "second-user".to_string(),
        "pw2".to_string(),
        None,
    );
    let found = find_entry(&v, "DUP").expect("a match exists");
    assert_eq!(found.id, id_a);
    assert_eq!(found.username, "first-user");
}

#[test]
fn ambiguous_delete_by_name_removes_all_matches() {
    let mut v = empty_vault();
    let (n, u, p, no) = named_entry("X");
    add_entry(&mut v, n, u, p, no);
    let (n, u, p, no) = named_entry("x");
    add_entry(&mut v, n, u, p, no);
    let (n, u, p, no) = named_entry("other");
    add_entry(&mut v, n, u, p, no);
    assert_eq!(count_matching_entries(&v, "X"), 2);
    assert!(remove_entry(&mut v, "X"));
    assert_eq!(v.entries.len(), 1);
    assert_eq!(v.entries[0].name, "other");
    assert!(!remove_entry(&mut v, "X"));
}

#[test]
fn delete_by_id_removes_exactly_one() {
    let mut v = empty_vault();
    let (n, u, p, no) = named_entry("X");
    let id1 = add_entry(&mut v, n, u, p, no);
    let (n, u, p, no) = named_entry("X");
    let id2 = add_entry(&mut v, n, u, p, no);
    assert_ne!(id1, id2);
    assert!(remove_entry_by_id(&mut v, id1));
    assert_eq!(v.entries.len(), 1);
    assert_eq!(v.entries[0].id, id2);
    assert!(!remove_entry_by_id(&mut v, id1));
    assert_eq!(v.entries.len(), 1);
}

#[test]
fn find_by_id_and_mutation_through_handle() {
    let mut v = empty_vault();
    let (n, u, p, no) = named_entry("alpha");
    let id = add_entry(&mut v, n, u, p, no);
    assert!(find_entry_by_id(&v, id).is_some());
    assert!(find_entry_by_id(&v, id + 1).is_none());

    let handle = find_entry_mut(&mut v, "ALPHA").expect("entry exists");
    handle.password = "rotated".to_string();
    assert_eq!(v.entries[0].password, "rotated");
}

#[test]
fn edit_merges_supplied_fields_and_keeps_the_id() {
    let mut v = empty_vault();
    let (n, u, p, no) = named_entry("mail");
    let id = add_entry(&mut v, n, u, p, no);
    let update = Entry {
        id: 99, // must be ignored: the stored entry keeps its own id
        name: String::new(),
        username: "new-user".to_string(),
        password: String::new(),
        notes: Some("rotated".to_string()),
    };
    assert!(edit_entry(&mut v, "MAIL", update));
    assert_eq!(v.entries[0].id, id, "an edit never changes the stored id");
    assert_eq!(v.entries[0].name, "mail", "an empty field keeps its prior value");
    assert_eq!(v.entries[0].username, "new-user");
    assert_eq!(v.entries[0].password, "pw");
    assert_eq!(v.entries[0].notes.as_deref(), Some("rotated"));

    let untouched = Entry {
        id: 99,
        name: "zzz".to_string(),
        username: String::new(),
        password: String::new(),
        notes: None,
    };
    assert!(!edit_entry(&mut v, "absent", untouched));
    assert_eq!(v.entries.len(), 1);
}

#[test]
fn edit_by_id_keeps_omitted_fields() {
    let mut v = empty_vault();
    let id = add_entry(
        &mut v,
        "site".to_string(),
        "old-user".to_string(),
        "old-pw".to_string(),
        Some("old-note".to_string()),
    );
    assert!(edit_entry_by_id(&mut v, id, None, None, Some("fresh-pw".to_string()), None));
    assert_eq!(v.entries[0].name, "site");
    assert_eq!(v.entries[0].username, "old-user");
    assert_eq!(v.entries[0].password, "fresh-pw");
    assert_eq!(v.entries[0].notes.as_deref(), Some("old-note"));
    assert!(!edit_entry_by_id(&mut v, id + 7, None, None, None, None));
}

#[test]
fn mutable_lookup_by_id_and_absent_names() {
    let mut v = empty_vault();
    let (n, u, p, no) = named_entry("beta");
    let id = add_entry(&mut v, n, u, p, no);

    assert!(rustpass::repo::find_entry_mut(&mut v, "missing").is_none());
    assert!(rustpass::repo::find_entry_mut_by_id(&mut v, id + 1).is_none());

    let handle = rustpass::repo::find_entry_mut_by_id(&mut v, id).expect("entry exists");
    handle.notes = Some("annotated".to_string());
    assert_eq!(v.entries[0].notes.as_deref(), Some("annotated"));
}

#[test]
fn case_insensitive_equality_is_ascii_only() {
    assert!(eq_ignore_case("GitHub", "github"));
    assert!(eq_ignore_case("", ""));
    assert!(!eq_ignore_case("a", "b"));
    assert!(!eq_ignore_case("short", "shorter"));
    assert!(eq_ignore_case("caf\u{e9}", "CAF\u{e9}"));
    assert!(!eq_ignore_case("caf\u{e9}", "CAF\u{c9}"));
}
