use diesel_rocket::codec::{serialize_entry, u64_to_dec};
use diesel_rocket::fingerprint::fingerprint;
use diesel_rocket::models::Entry;
use diesel_rocket::resolver::{removal_report, resolve_delete_position, resolve_fetch_position};

#[test]
fn decimal_rendering_exact_values() {
    assert_eq!(u64_to_dec(0), "0");
    assert_eq!(u64_to_dec(7), "7");
    assert_eq!(u64_to_dec(10), "10");
    assert_eq!(u64_to_dec(9081726354), "9081726354");
    assert_eq!(u64_to_dec(u64::MAX), "18446744073709551615");
}

#[test]
fn serialize_entry_exact_form() {
    let e = Entry {
        id: 12,
        opt: Some(String::from("plain")),
        num: 345,
        hash: String::from("678"),
    };
    assert_eq!(
        serialize_entry(&e),
        "{\"id\":12,\"opt\":\"plain\",\"num\":345,\"hash\":\"678\"}"
    );
}

#[test]
fn serialize_entry_absent_payload_is_null() {
    let e = Entry { id: 1, opt: None, num: 2, hash: String::from("3") };
    assert_eq!(serialize_entry(&e), "{\"id\":1,\"opt\":null,\"num\":2,\"hash\":\"3\"}");
}

#[test]
fn serialize_entry_escapes_payload() {
    let e = Entry {
        id: 1,
        opt: Some(String::from("a\"b\\c\nd")),
        num: 2,
        hash: String::from("3"),
    };
    assert_eq!(
        serialize_entry(&e),
        "{\"id\":1,\"opt\":\"a\\\"b\\\\c\\u000ad\",\"num\":2,\"hash\":\"3\"}"
    );
}

#[test]
fn fingerprint_is_deterministic() {
    assert_eq!(fingerprint("hello world", 42), fingerprint("hello world", 42));
}

#[test]
fn fingerprint_differs_on_payload() {
    assert_ne!(fingerprint("p1", 42), fingerprint("p2", 42));
}

#[test]
fn fingerprint_differs_on_timestamp() {
    assert_ne!(fingerprint("p1", 42), fingerprint("p1", 43));
}

#[test]
fn fingerprint_mixes_payload_into_digest() {
    // Were the digest the bare timestamp, these would render as "42".
    assert_ne!(fingerprint("hello", 42), "42");
    assert_ne!(fingerprint("", 42), "42");
    assert!(fingerprint("hello", 42).chars().all(|c| c.is_ascii_digit()));
}

#[test]
fn fetch_position_below_count_folds_modulo() {
    assert_eq!(resolve_fetch_position(3, 5), 3);
}

#[test]
fn fetch_position_at_or_above_count_is_direct_id() {
    assert_eq!(resolve_fetch_position(9, 5), 9);
    assert_eq!(resolve_fetch_position(5, 5), 5);
}

#[test]
fn delete_position_below_count_resolves_to_count() {
    assert_eq!(resolve_delete_position(3, 5), 5);
}

#[test]
fn delete_position_at_or_above_count_is_direct_id() {
    assert_eq!(resolve_delete_position(9, 5), 9);
    assert_eq!(resolve_delete_position(0, 0), 0);
}

#[test]
fn removal_report_no_record_exact_text() {
    assert_eq!(removal_report(4, 0), "no record 4 (reported deletion of 0 records)");
}

#[test]
fn removal_report_deleted_exact_text() {
    assert_eq!(removal_report(3, 1), "deleted 3");
}
