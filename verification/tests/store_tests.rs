use diesel_rocket::fingerprint::fingerprint;
use diesel_rocket::store::EntryStore;
use diesel_rocket::store::{create_at, create_entry, edit_at, edit_entry};
use diesel_rocket::store::{get_count, get_entries, get_entry, rm_entries, rm_entry};

#[test]
fn create_test() {
    let mut s = EntryStore::new();

    let e = create_entry(&mut s, "hello world");

    assert!(e.len() > 0);
    println!("\ncreated:\n{}\n", e);
}

#[test]
fn gets_test() {
    let mut s = EntryStore::new();
    create_at(&mut s, "hello world", 1000);

    let e = get_entries(&s, 0, 2000);
    assert!(e != String::from("Error!"));
    println!("\nget test:\n{:?}\n", e);

    let f = get_entries(&s, 2000, 2000);
    assert!(f == String::from("Error!"));
}

#[test]
fn get_test() {
    let mut s = EntryStore::new();
    for k in 0..8 {
        create_at(&mut s, "hello world", 100 + k);
    }

    let e = get_entry(&s, 7);
    println!("\ngetter test:\n{}\n", e);
}

#[test]
fn edit_test() {
    let mut s = EntryStore::new();
    for k in 0..8 {
        create_at(&mut s, "hello world", 100 + k);
    }

    let r = edit_entry(&mut s, 7, "edited!");
    assert!(r != String::from("Error!"));
    println!("\nedited:\n{:?}\n", r);
}

#[test]
fn count_starts_empty_and_grows() {
    let mut s = EntryStore::new();
    assert_eq!(get_count(&s), 0);
    create_at(&mut s, "a", 1);
    create_at(&mut s, "b", 2);
    assert_eq!(get_count(&s), 2);
}

#[test]
fn create_then_get_returns_created_entry() {
    let mut s = EntryStore::new();
    let created = create_at(&mut s, "hello", 1234);
    let fp = fingerprint("hello", 1234);
    let expected = format!("{{\"id\":1,\"opt\":\"hello\",\"num\":1234,\"hash\":\"{}\"}}", fp);
    assert_eq!(created, expected);
    assert_eq!(get_entry(&s, 1), expected);
}

#[test]
fn get_absent_id_is_sentinel() {
    let mut s = EntryStore::new();
    create_at(&mut s, "hello", 1234);
    assert_eq!(get_entry(&s, 2), String::from("Error"));
}

#[test]
fn edit_rewrites_payload_timestamp_and_hash() {
    let mut s = EntryStore::new();
    create_at(&mut s, "before", 10);
    let edited = edit_at(&mut s, 1, "after", 20);
    let fp = fingerprint("after", 20);
    let expected = format!("{{\"id\":1,\"opt\":\"after\",\"num\":20,\"hash\":\"{}\"}}", fp);
    assert_eq!(edited, expected);
    assert_eq!(get_entry(&s, 1), expected);
}

#[test]
fn edit_absent_id_is_sentinel_and_changes_nothing() {
    let mut s = EntryStore::new();
    create_at(&mut s, "only", 10);
    let before = get_entry(&s, 1);
    assert_eq!(edit_at(&mut s, 9, "other", 20), String::from("Error!"));
    assert_eq!(get_count(&s), 1);
    assert_eq!(get_entry(&s, 1), before);
}

#[test]
fn empty_window_is_sentinel() {
    let mut s = EntryStore::new();
    create_at(&mut s, "x", 100);
    assert_eq!(get_entries(&s, 5, 5), String::from("Error!"));
    assert_eq!(get_entries(&s, 100, 100), String::from("Error!"));
}

#[test]
fn empty_store_range_is_sentinel() {
    let s = EntryStore::new();
    assert_eq!(get_entries(&s, 0, u64::MAX), String::from("Error!"));
}

#[test]
fn range_after_create_contains_serialized_entry() {
    let mut s = EntryStore::new();
    create_at(&mut s, "x", 100);
    let body = get_entries(&s, 0, 200);
    let fp = fingerprint("x", 100);
    let expected = format!("{{\"id\":1,\"opt\":\"x\",\"num\":100,\"hash\":\"{}\"}}", fp);
    assert!(body.len() > 0);
    assert!(body != String::from("Error!"));
    assert!(body.contains(&expected));
    assert_eq!(body, expected);
}

#[test]
fn window_start_inclusive_end_exclusive() {
    let mut s = EntryStore::new();
    create_at(&mut s, "a", 10);
    create_at(&mut s, "b", 20);
    create_at(&mut s, "c", 30);
    let body = get_entries(&s, 10, 30);
    assert!(body.contains("\"num\":10"));
    assert!(body.contains("\"num\":20"));
    assert!(!body.contains("\"num\":30"));
}

#[test]
fn range_caps_at_fifty_rows() {
    let mut s = EntryStore::new();
    for k in 0..55u64 {
        create_at(&mut s, "bulk", k + 1);
    }
    let body = get_entries(&s, 0, 1000);
    assert_eq!(body.matches("{\"id\":").count(), 50);
    assert!(body.contains("\"num\":50"));
    assert!(!body.contains("\"num\":51"));
}

#[test]
fn delete_absent_id_reports_zero() {
    let mut s = EntryStore::new();
    create_at(&mut s, "keep", 10);
    assert_eq!(rm_entry(&mut s, 9), 0);
    assert_eq!(get_count(&s), 1);
}

#[test]
fn delete_present_id_then_get_is_sentinel() {
    let mut s = EntryStore::new();
    create_at(&mut s, "gone", 10);
    create_at(&mut s, "keep", 20);
    assert_eq!(rm_entry(&mut s, 1), 1);
    assert_eq!(get_count(&s), 1);
    assert_eq!(get_entry(&s, 1), String::from("Error"));
    assert!(get_entry(&s, 2) != String::from("Error"));
}

#[test]
fn delete_range_removes_only_window() {
    let mut s = EntryStore::new();
    create_at(&mut s, "a", 10);
    create_at(&mut s, "b", 20);
    create_at(&mut s, "c", 30);
    assert_eq!(rm_entries(&mut s, 10, 25), 2);
    assert_eq!(get_count(&s), 1);
    assert_eq!(get_entry(&s, 1), String::from("Error"));
    assert_eq!(get_entry(&s, 2), String::from("Error"));
    assert!(get_entry(&s, 3).contains("\"num\":30"));
}

#[test]
fn identifiers_are_not_reused_after_delete() {
    let mut s = EntryStore::new();
    create_at(&mut s, "a", 10);
    create_at(&mut s, "b", 20);
    rm_entry(&mut s, 2);
    create_at(&mut s, "c", 30);
    assert_eq!(get_entry(&s, 2), String::from("Error"));
    assert!(get_entry(&s, 3).contains("\"opt\":\"c\""));
}
