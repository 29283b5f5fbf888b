use sandbox_bridge::index::PackedHashIndex;
use sandbox_bridge::query::{guest_step, host_lookup, lookup_host_mediated, GuestStep, LookupStatus, QueryError};
use sandbox_bridge::table::HostTable;

fn table_with(key: &str, value: &[u8]) -> HostTable {
    let mut t = HostTable::new();
    t.insert(key.as_bytes().to_vec(), value.to_vec());
    t
}

#[test]
fn buffer_too_small_then_retry() {
    let value: Vec<u8> = (0..50u8).map(|i| b'a' + (i % 26)).collect();
    let t = table_with("big", &value);
    let first = host_lookup(&t, b"big", 10);
    assert_eq!(first.status, LookupStatus::BufferTooSmall);
    assert_eq!(first.capacity, 50);
    assert!(first.value.is_none());
    let second = host_lookup(&t, b"big", first.capacity);
    assert_eq!(second.status, LookupStatus::Success);
    assert_eq!(second.capacity, 50);
    assert_eq!(second.value, Some(value.clone()));
    assert_eq!(lookup_host_mediated(&t, b"big", 10), Ok(Some(value)));
}

#[test]
fn host_lookup_not_found_leaves_capacity() {
    let t = table_with("k", b"v");
    let r = host_lookup(&t, b"404 not found", 100);
    assert_eq!(r.status, LookupStatus::NotFound);
    assert_eq!(r.capacity, 100);
    assert!(r.value.is_none());
    assert_eq!(lookup_host_mediated(&t, b"404 not found", 100), Ok(None));
}

#[test]
fn host_lookup_fits_reports_true_length() {
    let t = table_with("k", b"value");
    let r = host_lookup(&t, b"k", 100);
    assert_eq!(r.status, LookupStatus::Success);
    assert_eq!(r.capacity, 5);
    assert_eq!(r.value, Some(b"value".to_vec()));
}

#[test]
fn host_lookup_exact_capacity_fits() {
    let t = table_with("k", b"value");
    let r = host_lookup(&t, b"k", 5);
    assert_eq!(r.status, LookupStatus::Success);
    let r = host_lookup(&t, b"k", 4);
    assert_eq!(r.status, LookupStatus::BufferTooSmall);
    assert_eq!(r.capacity, 5);
}

#[test]
fn guest_steps() {
    assert_eq!(guest_step(true, 0, 7), Ok(GuestStep::Found));
    assert_eq!(guest_step(true, 2, 7), Ok(GuestStep::Missing));
    assert_eq!(guest_step(true, 1, 50), Ok(GuestStep::Retry(50)));
    assert_eq!(guest_step(false, 1, 50), Err(QueryError::BufferTooSmallTwice));
    assert_eq!(guest_step(true, 7, 0), Err(QueryError::UnknownStatus(7)));
}

#[test]
fn status_codes() {
    assert_eq!(LookupStatus::Success.code(), 0);
    assert_eq!(LookupStatus::BufferTooSmall.code(), 1);
    assert_eq!(LookupStatus::NotFound.code(), 2);
    assert_eq!(LookupStatus::decode(1), Ok(LookupStatus::BufferTooSmall));
    assert_eq!(LookupStatus::decode(3), Err(QueryError::UnknownStatus(3)));
}

#[test]
fn both_paths_agree() {
    let mut t = HostTable::new();
    for i in 0..100 {
        t.insert(format!("key{}", i).into_bytes(), "v".repeat(i % 40 + 1).into_bytes());
    }
    let idx = PackedHashIndex::build(&t, 32).unwrap();
    for i in 0..100 {
        let k = format!("key{}", i);
        let direct = idx.lookup(k.as_bytes()).unwrap();
        let mediated = lookup_host_mediated(&t, k.as_bytes(), 16).unwrap();
        assert_eq!(direct, mediated);
        assert_eq!(direct, Some("v".repeat(i % 40 + 1).into_bytes()));
    }
    assert_eq!(idx.lookup(b"404 not found").unwrap(), None);
    assert_eq!(lookup_host_mediated(&t, b"404 not found", 16).unwrap(), None);
}
