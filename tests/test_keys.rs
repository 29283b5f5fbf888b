use sandbox_bridge::index::{pack_strings, read_packed_strings, LayoutError, PackedHashIndex};
use sandbox_bridge::query::{values_fit, verify_lookups};
use sandbox_bridge::table::HostTable;
use sandbox_bridge::workload::{create_lookup, random_string};

#[test]
fn pack_and_read_keys() {
    let keys = vec![b"alpha".to_vec(), Vec::new(), b"be".to_vec()];
    let packed = pack_strings(&keys).unwrap();
    assert_eq!(packed, vec![5, 0, 0, 0, b'a', b'l', b'p', b'h', b'a', 0, 0, 0, 0, 2, 0, 0, 0, b'b', b'e']);
    assert_eq!(read_packed_strings(&packed, 3), Ok(keys.clone()));
    assert_eq!(read_packed_strings(&packed, 2), Ok(keys[..2].to_vec()));
    assert_eq!(read_packed_strings(&packed, 4), Err(LayoutError::Malformed));
    assert_eq!(read_packed_strings(&packed[..10], 2), Err(LayoutError::Malformed));
    assert_eq!(read_packed_strings(&[], 0), Ok(vec![]));
}

fn sample_table() -> (HostTable, Vec<Vec<u8>>) {
    let mut t = HostTable::new();
    let mut keys = Vec::new();
    for i in 0..30 {
        let k = format!("test key {}", i).into_bytes();
        t.insert(k.clone(), format!("{}", i * i).into_bytes());
        keys.push(k);
    }
    (t, keys)
}

#[test]
fn verify_lookups_passes_on_built_index() {
    let (t, keys) = sample_table();
    let idx = PackedHashIndex::build(&t, 8).unwrap();
    assert!(values_fit(&t));
    assert!(verify_lookups(&idx, &t, &keys, b"404 not found", 4));
}

#[test]
fn verify_lookups_fails_on_unknown_or_present_missing_key() {
    let (t, mut keys) = sample_table();
    let idx = PackedHashIndex::build(&t, 8).unwrap();
    assert!(!verify_lookups(&idx, &t, &keys, b"test key 3", 4));
    keys.insert(0, b"not there".to_vec());
    assert!(!verify_lookups(&idx, &t, &keys, b"404 not found", 4));
}

#[test]
fn random_workload_shape() {
    let (table, keys) = create_lookup(300, 50);
    assert_eq!(keys.len(), 50);
    assert!(table.len() <= 300);
    for k in &keys {
        assert!(k.len() >= 5 && k.len() <= 40);
        assert!(k.iter().all(|b| b.is_ascii_alphanumeric()));
        let v = table.get(k).unwrap();
        assert!(v.len() >= 10 && v.len() <= 200);
    }
    let (_, few) = create_lookup(3, 50);
    assert_eq!(few.len(), 3);
    let s = random_string(4, 4);
    assert_eq!(s.len(), 4);
    let idx = PackedHashIndex::build(&table, 64).unwrap();
    assert!(verify_lookups(&idx, &table, &keys, b"404 not found", 100));
}
