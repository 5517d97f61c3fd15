use oxidart::OxidArt;

fn sorted(mut v: Vec<(Vec<u8>, Vec<u8>)>) -> Vec<(Vec<u8>, Vec<u8>)> {
    v.sort();
    v
}

#[test]
fn split_then_recompress_leaves_two_nodes() {
    let mut art = OxidArt::new();
    art.set(b"user", b"A".to_vec());
    art.set(b"uso", b"B".to_vec());
    assert_eq!(art.get(b"us"), None);
    assert_eq!(art.get(b"user"), Some(b"A".to_vec()));
    assert_eq!(art.get(b"uso"), Some(b"B".to_vec()));
    assert_eq!(art.num_nodes(), 4);
    assert_eq!(art.del(b"uso"), Some(b"B".to_vec()));
    assert_eq!(art.get(b"user"), Some(b"A".to_vec()));
    assert_eq!(art.num_nodes(), 2);
    assert_eq!(art.getn(b""), vec![(b"user".to_vec(), b"A".to_vec())]);
}

#[test]
fn delete_middle_key_keeps_neighbours() {
    let mut art = OxidArt::new();
    art.set(b"a", b"1".to_vec());
    art.set(b"ab", b"2".to_vec());
    art.set(b"abc", b"3".to_vec());
    assert_eq!(art.del(b"ab"), Some(b"2".to_vec()));
    assert_eq!(art.get(b"a"), Some(b"1".to_vec()));
    assert_eq!(art.get(b"abc"), Some(b"3".to_vec()));
    assert_eq!(art.get(b"ab"), None);
    assert_eq!(art.num_nodes(), 3);
}

#[test]
fn prefix_inside_compression_lists_exactly_its_keys() {
    let mut art = OxidArt::new();
    art.set(b"apple", b"1".to_vec());
    art.set(b"application", b"2".to_vec());
    art.set(b"banana", b"3".to_vec());
    art.set(b"band", b"4".to_vec());
    assert_eq!(art.get(b"app"), None);
    assert_eq!(
        sorted(art.getn(b"app")),
        vec![(b"apple".to_vec(), b"1".to_vec()), (b"application".to_vec(), b"2".to_vec())]
    );
}

#[test]
fn prefix_delete_counts_and_keeps_others() {
    let mut art = OxidArt::new();
    art.set(b"user:alice", "α".as_bytes().to_vec());
    art.set(b"user:bob", "β".as_bytes().to_vec());
    art.set(b"post:1", "γ".as_bytes().to_vec());
    assert_eq!(art.deln(b"user:"), 2);
    assert_eq!(art.get(b"post:1"), Some("γ".as_bytes().to_vec()));
    assert!(art.getn(b"user:").is_empty());
}

#[test]
fn twenty_children_use_the_overflow_region() {
    let mut art = OxidArt::new();
    for i in 0..20u8 {
        art.set(&[b'x', b':', i], vec![i]);
    }
    assert_eq!(art.num_nodes(), 22);
    let found = art.getn(b"x:");
    assert_eq!(found.len(), 20);
    for i in 0..20u8 {
        assert!(found.contains(&(vec![b'x', b':', i], vec![i])));
    }
}

#[test]
fn neighbours_of_a_key_are_absent() {
    let mut art = OxidArt::new();
    art.set(b"hello", b"w".to_vec());
    assert_eq!(art.get(b"hell"), None);
    assert_eq!(art.get(b"helloo"), None);
    assert_eq!(art.get(b"hello"), Some(b"w".to_vec()));
}

#[test]
fn distinct_keys_round_trip() {
    let keys: Vec<&[u8]> = vec![b"", b"a", b"ab", b"abc", b"b", b"ba", b"zzz", b"a:b:c", b"abd"];
    let mut art = OxidArt::new();
    for (i, k) in keys.iter().enumerate() {
        art.set(k, vec![i as u8, 7]);
    }
    for (i, k) in keys.iter().enumerate() {
        assert_eq!(art.get(k), Some(vec![i as u8, 7]));
    }
}

#[test]
fn overwrite_adds_no_node() {
    let mut art = OxidArt::new();
    art.set(b"key", b"v1".to_vec());
    art.set(b"kez", b"w".to_vec());
    let nodes = art.num_nodes();
    art.set(b"key", b"v2".to_vec());
    assert_eq!(art.get(b"key"), Some(b"v2".to_vec()));
    assert_eq!(art.num_nodes(), nodes);
}

#[test]
fn second_delete_is_a_no_op() {
    let mut art = OxidArt::new();
    art.set(b"one", b"1".to_vec());
    art.set(b"two", b"2".to_vec());
    assert_eq!(art.del(b"one"), Some(b"1".to_vec()));
    let nodes = art.num_nodes();
    assert_eq!(art.del(b"one"), None);
    assert_eq!(art.num_nodes(), nodes);
    assert_eq!(art.get(b"two"), Some(b"2".to_vec()));
}

#[test]
fn prefix_listing_matches_point_lookups() {
    let keys: Vec<&[u8]> = vec![b"car", b"cart", b"carbon", b"cat", b"dog", b"ca", b"c"];
    let mut art = OxidArt::new();
    for k in &keys {
        art.set(k, k.to_vec());
    }
    let mut expected: Vec<(Vec<u8>, Vec<u8>)> = keys
        .iter()
        .filter(|k| k.starts_with(b"car"))
        .map(|k| (k.to_vec(), k.to_vec()))
        .collect();
    expected.sort();
    assert_eq!(sorted(art.getn(b"car")), expected);
}

#[test]
fn prefix_delete_spares_keys_outside_the_prefix() {
    let mut art = OxidArt::new();
    art.set(b"ab", b"1".to_vec());
    art.set(b"abc", b"2".to_vec());
    art.set(b"a", b"3".to_vec());
    art.set(b"b", b"4".to_vec());
    assert_eq!(art.deln(b"ab"), 2);
    assert!(art.getn(b"ab").is_empty());
    assert_eq!(art.get(b"a"), Some(b"3".to_vec()));
    assert_eq!(art.get(b"b"), Some(b"4".to_vec()));
}

#[test]
fn empty_prefix_delete_leaves_only_the_root() {
    let mut art = OxidArt::new();
    art.set(b"", b"root".to_vec());
    art.set(b"a", b"1".to_vec());
    art.set(b"bc", b"2".to_vec());
    for i in 0..15u8 {
        art.set(&[b'q', i], vec![i]);
    }
    assert_eq!(art.deln(b""), 18);
    assert!(art.getn(b"").is_empty());
    assert_eq!(art.num_nodes(), 1);
    assert_eq!(art.get(b""), None);
}

#[test]
fn every_ascii_byte_as_a_child() {
    let mut art = OxidArt::new();
    for b in 0..128u8 {
        art.set(&[b], vec![b]);
    }
    for b in 0..128u8 {
        assert_eq!(art.get(&[b]), Some(vec![b]));
    }
    assert_eq!(art.getn(b"").len(), 128);
    assert_eq!(art.del(&[5u8]), Some(vec![5]));
    assert_eq!(art.del(&[100u8]), Some(vec![100]));
    assert_eq!(art.getn(b"").len(), 126);
    assert_eq!(art.deln(b""), 126);
}

#[test]
fn deleting_in_overflow_then_reinserting() {
    let mut art = OxidArt::new();
    for i in 0..30u8 {
        art.set(&[b'k', b'a' + i % 26, i], vec![i]);
    }
    for i in 0..30u8 {
        if i % 3 == 0 {
            assert_eq!(art.del(&[b'k', b'a' + i % 26, i]), Some(vec![i]));
        }
    }
    for i in 0..30u8 {
        let want = if i % 3 == 0 { None } else { Some(vec![i]) };
        assert_eq!(art.get(&[b'k', b'a' + i % 26, i]), want);
    }
    art.set(&[b'k', b'a', 0], b"back".to_vec());
    assert_eq!(art.get(&[b'k', b'a', 0]), Some(b"back".to_vec()));
    assert_eq!(art.getn(b"k").len(), 21);
}

#[test]
fn long_keys_split_in_the_middle() {
    let mut art = OxidArt::new();
    let long = vec![b'a'; 100];
    let mut other = vec![b'a'; 60];
    other.push(b'b');
    art.set(&long, b"long".to_vec());
    art.set(&other, b"other".to_vec());
    assert_eq!(art.get(&long), Some(b"long".to_vec()));
    assert_eq!(art.get(&other), Some(b"other".to_vec()));
    assert_eq!(art.get(&long[..60]), None);
    assert_eq!(art.getn(&long[..60]).len(), 2);
}

#[test]
fn default_tree_is_empty() {
    let art = OxidArt::default();
    assert_eq!(art.num_nodes(), 1);
    assert!(art.getn(b"").is_empty());
}
