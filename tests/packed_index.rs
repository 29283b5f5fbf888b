use sandbox_bridge::index::{key_less, lookup_direct, slot_for, LayoutError, PackedHashIndex};
use sandbox_bridge::table::HostTable;
use std::collections::hash_map::DefaultHasher;
use std::hash::Hasher;

fn table_of(pairs: &[(&str, &str)]) -> HostTable {
    let mut t = HostTable::new();
    for (k, v) in pairs {
        t.insert(k.as_bytes().to_vec(), v.as_bytes().to_vec());
    }
    t
}

fn u32_at(d: &[u8], off: usize) -> usize {
    u32::from_le_bytes([d[off], d[off + 1], d[off + 2], d[off + 3]]) as usize
}

/// Decodes the chain at `off` of a chain region.
fn chain_at(region: &[u8], off: usize) -> Vec<(Vec<u8>, Vec<u8>)> {
    let n = u32_at(region, off);
    let mut pos = off + 4;
    let mut out = Vec::new();
    for _ in 0..n {
        let kl = u32_at(region, pos);
        let k = region[pos + 4..pos + 4 + kl].to_vec();
        pos += 4 + kl;
        let vl = u32_at(region, pos);
        let v = region[pos + 4..pos + 4 + vl].to_vec();
        pos += 4 + vl;
        out.push((k, v));
    }
    out
}

fn sample_pairs() -> Vec<(String, String)> {
    (0..200)
        .map(|i| (format!("key-{}-{}", i, "x".repeat(i % 7)), format!("value number {} {}", i * 31, "y".repeat(i % 13))))
        .collect()
}

#[test]
fn index_round_trip_all_keys() {
    let pairs = sample_pairs();
    let refs: Vec<(&str, &str)> = pairs.iter().map(|(k, v)| (k.as_str(), v.as_str())).collect();
    let table = table_of(&refs);
    let idx = PackedHashIndex::build(&table, 64).unwrap();
    for (k, v) in &pairs {
        assert_eq!(idx.lookup(k.as_bytes()), Ok(Some(v.as_bytes().to_vec())));
        assert_eq!(lookup_direct(idx.slots(), idx.region(), k.as_bytes()), Ok(Some(v.as_bytes().to_vec())));
    }
}

#[test]
fn index_negative_lookup() {
    let table = table_of(&[("alpha", "1"), ("beta", "2"), ("gamma", "3")]);
    let idx = PackedHashIndex::build(&table, 8).unwrap();
    assert_eq!(idx.lookup(b"404 not found"), Ok(None));
    assert_eq!(idx.lookup(b""), Ok(None));
}

#[test]
fn index_empty_table() {
    let table = HostTable::new();
    let idx = PackedHashIndex::build(&table, 4).unwrap();
    assert_eq!(idx.slots(), &[0u32, 0, 0, 0][..]);
    assert_eq!(idx.region(), &[0u8][..]);
    assert_eq!(idx.lookup(b"a"), Ok(None));
}

#[test]
fn index_single_slot_chain_is_ordered() {
    let table = table_of(&[("ccc", "3"), ("a", "1"), ("bb", "2"), ("b", "x"), ("aa", "y")]);
    let idx = PackedHashIndex::build(&table, 1).unwrap();
    assert_eq!(idx.slots(), &[1u32][..]);
    let chain = chain_at(idx.region(), 1);
    let keys: Vec<&[u8]> = chain.iter().map(|(k, _)| k.as_slice()).collect();
    assert_eq!(keys, vec![&b"a"[..], b"b", b"aa", b"bb", b"ccc"]);
    // Exact bytes of the region: bumper, count, then the pairs.
    let region = idx.region();
    assert_eq!(region[0], 0);
    assert_eq!(&region[1..5], &[5, 0, 0, 0]);
    assert_eq!(&region[5..9], &[1, 0, 0, 0]);
    assert_eq!(region[9], b'a');
    assert_eq!(&region[10..14], &[1, 0, 0, 0]);
    assert_eq!(region[14], b'1');
}

#[test]
fn index_chains_non_decreasing() {
    let pairs = sample_pairs();
    let refs: Vec<(&str, &str)> = pairs.iter().map(|(k, v)| (k.as_str(), v.as_str())).collect();
    let idx = PackedHashIndex::build(&table_of(&refs), 16).unwrap();
    let mut seen = 0;
    for (s, &off) in idx.slots().iter().enumerate() {
        if off == 0 {
            continue;
        }
        let chain = chain_at(idx.region(), off as usize);
        assert!(!chain.is_empty());
        for (k, _) in &chain {
            assert_eq!(slot_for(k, 16), s);
        }
        for w in chain.windows(2) {
            let (a, b) = (&w[0].0, &w[1].0);
            assert!(a.len() < b.len() || (a.len() == b.len() && a < b));
        }
        seen += chain.len();
    }
    assert_eq!(seen, pairs.len());
}

#[test]
fn index_two_keys_share_a_slot() {
    // With std's hasher "a" and "cd" share slot 3 of 4; "ab" is alone in slot 1.
    assert_eq!(slot_for(b"a", 4), 3);
    assert_eq!(slot_for(b"cd", 4), 3);
    assert_eq!(slot_for(b"ab", 4), 1);
    let table = table_of(&[("cd", "3"), ("a", "1"), ("ab", "22")]);
    let idx = PackedHashIndex::build(&table, 4).unwrap();
    let shared = chain_at(idx.region(), idx.slots()[3] as usize);
    assert_eq!(shared, vec![(b"a".to_vec(), b"1".to_vec()), (b"cd".to_vec(), b"3".to_vec())]);
    let single = chain_at(idx.region(), idx.slots()[1] as usize);
    assert_eq!(single, vec![(b"ab".to_vec(), b"22".to_vec())]);
    assert_eq!(idx.slots()[0], 0);
    assert_eq!(idx.slots()[2], 0);
    assert_eq!(idx.lookup(b"ab"), Ok(Some(b"22".to_vec())));
    assert_eq!(idx.lookup(b"a"), Ok(Some(b"1".to_vec())));
    assert_eq!(idx.lookup(b"cd"), Ok(Some(b"3".to_vec())));
}

#[test]
fn index_keys_a_ab_b() {
    let table = table_of(&[("a", "1"), ("ab", "22"), ("b", "3")]);
    let idx = PackedHashIndex::build(&table, 4).unwrap();
    assert_eq!(idx.lookup(b"a"), Ok(Some(b"1".to_vec())));
    assert_eq!(idx.lookup(b"ab"), Ok(Some(b"22".to_vec())));
    assert_eq!(idx.lookup(b"b"), Ok(Some(b"3".to_vec())));
    let chain_ab = chain_at(idx.region(), idx.slots()[slot_for(b"ab", 4)] as usize);
    assert_eq!(chain_ab, vec![(b"ab".to_vec(), b"22".to_vec())]);
}

#[test]
fn index_to_bytes_layout() {
    let table = table_of(&[("k", "v")]);
    let idx = PackedHashIndex::build(&table, 2).unwrap();
    let bytes = idx.to_bytes();
    assert_eq!(bytes.len(), 2 * 4 + idx.region().len());
    let s = slot_for(b"k", 2);
    assert_eq!(u32_at(&bytes, s * 4), 1);
    assert_eq!(u32_at(&bytes, (1 - s) * 4), 0);
    assert_eq!(&bytes[8..], idx.region());
    assert_eq!(idx.region(), &[0, 1, 0, 0, 0, 1, 0, 0, 0, b'k', 1, 0, 0, 0, b'v'][..]);
}

#[test]
fn lookup_direct_reports_malformed_region() {
    let table = table_of(&[("key", "value")]);
    let idx = PackedHashIndex::build(&table, 1).unwrap();
    let region = idx.region();
    let cut = &region[..region.len() - 2];
    assert_eq!(lookup_direct(idx.slots(), cut, b"key"), Err(LayoutError::Malformed));
    assert_eq!(lookup_direct(&[100u32], region, b"key"), Err(LayoutError::Malformed));
}

#[test]
fn key_order() {
    assert!(key_less(b"b", b"aa"));
    assert!(key_less(b"ab", b"ac"));
    assert!(!key_less(b"ac", b"ab"));
    assert!(!key_less(b"same", b"same"));
    assert!(key_less(b"", b"a"));
}

#[test]
fn slot_matches_default_hasher() {
    let mut h = DefaultHasher::new();
    h.write(b"some key");
    assert_eq!(slot_for(b"some key", 1000), (h.finish() % 1000) as usize);
}

#[test]
fn table_insert_replaces() {
    let mut t = HostTable::new();
    t.insert(b"k".to_vec(), b"1".to_vec());
    t.insert(b"j".to_vec(), b"2".to_vec());
    t.insert(b"k".to_vec(), b"3".to_vec());
    assert_eq!(t.len(), 2);
    assert_eq!(t.get(b"k"), Some(&b"3"[..]));
    assert_eq!(t.get(b"j"), Some(&b"2"[..]));
    assert_eq!(t.get(b"z"), None);
}
