use bytes::Bytes;
use oxidart::OxidArt;

fn pairs(v: Vec<(Vec<u8>, Vec<u8>)>) -> Vec<(Bytes, Bytes)> {
    v.into_iter().map(|(k, v)| (Bytes::from(k), Bytes::from(v))).collect()
}

#[test]
fn test_get_set_basic() {
    let mut art = OxidArt::new();
    let key = Bytes::from_static(b"Joshua");
    let val = Bytes::from_static(b"BOUCHAT");
    art.set(&key, val.to_vec());
    assert_eq!(art.get(&key).map(Bytes::from), Some(val));
}

#[test]
fn test_empty_key() {
    let mut art = OxidArt::new();
    let key = Bytes::from_static(b"");
    let val = Bytes::from_static(b"root_value");
    art.set(&key, val.to_vec());
    assert_eq!(art.get(&key).map(Bytes::from), Some(val));
}

#[test]
fn test_get_nonexistent() {
    let art = OxidArt::new();
    assert_eq!(art.get(&Bytes::from_static(b"missing")).map(Bytes::from), None);
}

#[test]
fn test_overwrite_value() {
    let mut art = OxidArt::new();
    let key = Bytes::from_static(b"key");
    let val1 = Bytes::from_static(b"value1");
    let val2 = Bytes::from_static(b"value2");

    art.set(&key, val1.to_vec());
    assert_eq!(art.get(&key).map(Bytes::from), Some(val1));

    art.set(&key, val2.to_vec());
    assert_eq!(art.get(&key).map(Bytes::from), Some(val2));
}

#[test]
fn test_common_prefix_split() {
    let mut art = OxidArt::new();

    art.set(&Bytes::from_static(b"user"), Bytes::from_static(b"val_user").to_vec());
    art.set(&Bytes::from_static(b"uso"), Bytes::from_static(b"val_uso").to_vec());

    assert_eq!(
        art.get(&Bytes::from_static(b"user")).map(Bytes::from),
        Some(Bytes::from_static(b"val_user"))
    );
    assert_eq!(
        art.get(&Bytes::from_static(b"uso")).map(Bytes::from),
        Some(Bytes::from_static(b"val_uso"))
    );
    assert_eq!(art.get(&Bytes::from_static(b"us")).map(Bytes::from), None);
}

#[test]
fn test_prefix_is_also_key() {
    let mut art = OxidArt::new();

    art.set(&Bytes::from_static(b"user"), Bytes::from_static(b"val_user").to_vec());
    art.set(&Bytes::from_static(b"us"), Bytes::from_static(b"val_us").to_vec());

    assert_eq!(
        art.get(&Bytes::from_static(b"user")).map(Bytes::from),
        Some(Bytes::from_static(b"val_user"))
    );
    assert_eq!(
        art.get(&Bytes::from_static(b"us")).map(Bytes::from),
        Some(Bytes::from_static(b"val_us"))
    );
}

#[test]
fn test_multiple_branches() {
    let mut art = OxidArt::new();

    art.set(&Bytes::from_static(b"apple"), Bytes::from_static(b"1").to_vec());
    art.set(&Bytes::from_static(b"application"), Bytes::from_static(b"2").to_vec());
    art.set(&Bytes::from_static(b"banana"), Bytes::from_static(b"3").to_vec());
    art.set(&Bytes::from_static(b"band"), Bytes::from_static(b"4").to_vec());

    assert_eq!(
        art.get(&Bytes::from_static(b"apple")).map(Bytes::from),
        Some(Bytes::from_static(b"1"))
    );
    assert_eq!(
        art.get(&Bytes::from_static(b"application")).map(Bytes::from),
        Some(Bytes::from_static(b"2"))
    );
    assert_eq!(
        art.get(&Bytes::from_static(b"banana")).map(Bytes::from),
        Some(Bytes::from_static(b"3"))
    );
    assert_eq!(
        art.get(&Bytes::from_static(b"band")).map(Bytes::from),
        Some(Bytes::from_static(b"4"))
    );

    assert_eq!(art.get(&Bytes::from_static(b"app")).map(Bytes::from), None);
    assert_eq!(art.get(&Bytes::from_static(b"ban")).map(Bytes::from), None);
}

#[test]
fn test_del_basic() {
    let mut art = OxidArt::new();
    let key = Bytes::from_static(b"hello");
    let val = Bytes::from_static(b"world");

    art.set(&key, val.to_vec());
    assert_eq!(art.get(&key).map(Bytes::from), Some(val.clone()));

    let deleted = art.del(&key).map(Bytes::from);
    assert_eq!(deleted, Some(val));
    assert_eq!(art.get(&key).map(Bytes::from), None);
}

#[test]
fn test_del_nonexistent() {
    let mut art = OxidArt::new();
    assert_eq!(art.del(&Bytes::from_static(b"missing")).map(Bytes::from), None);
}

#[test]
fn test_del_empty_key() {
    let mut art = OxidArt::new();
    let val = Bytes::from_static(b"root");

    art.set(&Bytes::from_static(b""), val.to_vec());
    assert_eq!(art.del(&Bytes::from_static(b"")).map(Bytes::from), Some(val));
    assert_eq!(art.get(&Bytes::from_static(b"")).map(Bytes::from), None);
}

#[test]
fn test_del_with_recompression() {
    let mut art = OxidArt::new();

    art.set(&Bytes::from_static(b"user"), Bytes::from_static(b"val_user").to_vec());
    art.set(&Bytes::from_static(b"uso"), Bytes::from_static(b"val_uso").to_vec());

    let deleted = art.del(&Bytes::from_static(b"uso")).map(Bytes::from);
    assert_eq!(deleted, Some(Bytes::from_static(b"val_uso")));

    assert_eq!(
        art.get(&Bytes::from_static(b"user")).map(Bytes::from),
        Some(Bytes::from_static(b"val_user"))
    );
    assert_eq!(art.get(&Bytes::from_static(b"uso")).map(Bytes::from), None);
}

#[test]
fn test_del_intermediate_node_with_children() {
    let mut art = OxidArt::new();

    art.set(&Bytes::from_static(b"a"), Bytes::from_static(b"val_a").to_vec());
    art.set(&Bytes::from_static(b"ab"), Bytes::from_static(b"val_ab").to_vec());
    art.set(&Bytes::from_static(b"abc"), Bytes::from_static(b"val_abc").to_vec());

    let deleted = art.del(&Bytes::from_static(b"ab")).map(Bytes::from);
    assert_eq!(deleted, Some(Bytes::from_static(b"val_ab")));

    assert_eq!(
        art.get(&Bytes::from_static(b"a")).map(Bytes::from),
        Some(Bytes::from_static(b"val_a"))
    );
    assert_eq!(
        art.get(&Bytes::from_static(b"abc")).map(Bytes::from),
        Some(Bytes::from_static(b"val_abc"))
    );
    assert_eq!(art.get(&Bytes::from_static(b"ab")).map(Bytes::from), None);
}

#[test]
fn test_many_keys_same_prefix() {
    let mut art = OxidArt::new();

    for i in 0..20u8 {
        let key = Bytes::from(vec![b'x', i]);
        let val = Bytes::from(vec![i]);
        art.set(&key, val.to_vec());
    }

    for i in 0..20u8 {
        let key = Bytes::from(vec![b'x', i]);
        let expected = Bytes::from(vec![i]);
        assert_eq!(art.get(&key).map(Bytes::from), Some(expected));
    }
}

#[test]
fn test_long_keys() {
    let mut art = OxidArt::new();

    let key1 = Bytes::from(vec![b'a'; 100]);
    let key2 = Bytes::from(vec![b'a'; 50]);
    let val1 = Bytes::from_static(b"long");
    let val2 = Bytes::from_static(b"medium");

    art.set(&key1.clone(), val1.to_vec());
    art.set(&key2.clone(), val2.to_vec());

    assert_eq!(art.get(&key1).map(Bytes::from), Some(val1));
    assert_eq!(art.get(&key2).map(Bytes::from), Some(val2));
}

#[test]
fn test_del_then_reinsert() {
    let mut art = OxidArt::new();
    let key = Bytes::from_static(b"key");
    let val1 = Bytes::from_static(b"val1");
    let val2 = Bytes::from_static(b"val2");

    art.set(&key, val1.to_vec());
    art.del(&key).map(Bytes::from);
    art.set(&key, val2.to_vec());

    assert_eq!(art.get(&key).map(Bytes::from), Some(val2));
}

#[test]
fn test_del_all_keys() {
    let mut art = OxidArt::new();

    art.set(&Bytes::from_static(b"a"), Bytes::from_static(b"1").to_vec());
    art.set(&Bytes::from_static(b"b"), Bytes::from_static(b"2").to_vec());
    art.set(&Bytes::from_static(b"c"), Bytes::from_static(b"3").to_vec());

    art.del(&Bytes::from_static(b"a")).map(Bytes::from);
    art.del(&Bytes::from_static(b"b")).map(Bytes::from);
    art.del(&Bytes::from_static(b"c")).map(Bytes::from);

    assert_eq!(art.get(&Bytes::from_static(b"a")).map(Bytes::from), None);
    assert_eq!(art.get(&Bytes::from_static(b"b")).map(Bytes::from), None);
    assert_eq!(art.get(&Bytes::from_static(b"c")).map(Bytes::from), None);
}

#[test]
fn test_partial_key_not_found() {
    let mut art = OxidArt::new();

    art.set(&Bytes::from_static(b"hello_world"), Bytes::from_static(b"val").to_vec());

    assert_eq!(art.get(&Bytes::from_static(b"hello")).map(Bytes::from), None);
    assert_eq!(art.get(&Bytes::from_static(b"hello_")).map(Bytes::from), None);
    assert_eq!(art.get(&Bytes::from_static(b"hello_worl")).map(Bytes::from), None);
    assert_eq!(art.get(&Bytes::from_static(b"hello_world!")).map(Bytes::from), None);
}

#[test]
fn test_getn_basic() {
    let mut art = OxidArt::new();

    art.set(&Bytes::from_static(b"user:alice"), Bytes::from_static(b"alice_data").to_vec());
    art.set(&Bytes::from_static(b"user:bob"), Bytes::from_static(b"bob_data").to_vec());
    art.set(&Bytes::from_static(b"user:charlie"), Bytes::from_static(b"charlie_data").to_vec());
    art.set(&Bytes::from_static(b"post:1"), Bytes::from_static(b"post_1").to_vec());

    let results = pairs(art.getn(&Bytes::from_static(b"user:")));

    assert_eq!(results.len(), 3);
    assert!(results.contains(&(
        Bytes::from_static(b"user:alice"),
        Bytes::from_static(b"alice_data")
    )));
    assert!(results.contains(&(
        Bytes::from_static(b"user:bob"),
        Bytes::from_static(b"bob_data")
    )));
    assert!(results.contains(&(
        Bytes::from_static(b"user:charlie"),
        Bytes::from_static(b"charlie_data")
    )));
}

#[test]
fn test_getn_empty_prefix() {
    let mut art = OxidArt::new();

    art.set(&Bytes::from_static(b"a"), Bytes::from_static(b"1").to_vec());
    art.set(&Bytes::from_static(b"b"), Bytes::from_static(b"2").to_vec());
    art.set(&Bytes::from_static(b"c"), Bytes::from_static(b"3").to_vec());

    let results = pairs(art.getn(&Bytes::from_static(b"")));

    assert_eq!(results.len(), 3);
}

#[test]
fn test_getn_no_match() {
    let mut art = OxidArt::new();

    art.set(&Bytes::from_static(b"user:alice"), Bytes::from_static(b"data").to_vec());

    let results = pairs(art.getn(&Bytes::from_static(b"post:")));

    assert!(results.is_empty());
}

#[test]
fn test_getn_exact_key() {
    let mut art = OxidArt::new();

    art.set(&Bytes::from_static(b"user"), Bytes::from_static(b"user_val").to_vec());
    art.set(&Bytes::from_static(b"user:alice"), Bytes::from_static(b"alice_val").to_vec());

    let results = pairs(art.getn(&Bytes::from_static(b"user")));

    assert_eq!(results.len(), 2);
    assert!(results.contains(&(Bytes::from_static(b"user"), Bytes::from_static(b"user_val"))));
    assert!(results.contains(&(
        Bytes::from_static(b"user:alice"),
        Bytes::from_static(b"alice_val")
    )));
}

#[test]
fn test_getn_prefix_in_compression() {
    let mut art = OxidArt::new();

    art.set(&Bytes::from_static(b"application"), Bytes::from_static(b"app_val").to_vec());

    let results = pairs(art.getn(&Bytes::from_static(b"app")));

    assert_eq!(results.len(), 1);
    assert!(results.contains(&(
        Bytes::from_static(b"application"),
        Bytes::from_static(b"app_val")
    )));
}

#[test]
fn test_getn_with_nested_keys() {
    let mut art = OxidArt::new();

    art.set(&Bytes::from_static(b"a"), Bytes::from_static(b"1").to_vec());
    art.set(&Bytes::from_static(b"ab"), Bytes::from_static(b"2").to_vec());
    art.set(&Bytes::from_static(b"abc"), Bytes::from_static(b"3").to_vec());
    art.set(&Bytes::from_static(b"abcd"), Bytes::from_static(b"4").to_vec());
    art.set(&Bytes::from_static(b"abd"), Bytes::from_static(b"5").to_vec());

    let results = pairs(art.getn(&Bytes::from_static(b"ab")));

    assert_eq!(results.len(), 4); // ab, abc, abcd, abd
    assert!(results.contains(&(Bytes::from_static(b"ab"), Bytes::from_static(b"2"))));
    assert!(results.contains(&(Bytes::from_static(b"abc"), Bytes::from_static(b"3"))));
    assert!(results.contains(&(Bytes::from_static(b"abcd"), Bytes::from_static(b"4"))));
    assert!(results.contains(&(Bytes::from_static(b"abd"), Bytes::from_static(b"5"))));
}

#[test]
fn test_getn_single_char_prefix() {
    let mut art = OxidArt::new();

    art.set(&Bytes::from_static(b"aa"), Bytes::from_static(b"1").to_vec());
    art.set(&Bytes::from_static(b"ab"), Bytes::from_static(b"2").to_vec());
    art.set(&Bytes::from_static(b"ba"), Bytes::from_static(b"3").to_vec());

    let results = pairs(art.getn(&Bytes::from_static(b"a")));

    assert_eq!(results.len(), 2);
    assert!(results.contains(&(Bytes::from_static(b"aa"), Bytes::from_static(b"1"))));
    assert!(results.contains(&(Bytes::from_static(b"ab"), Bytes::from_static(b"2"))));
}

#[test]
fn test_getn_many_children() {
    let mut art = OxidArt::new();

    for i in 0..20u8 {
        let key = Bytes::from(vec![b'x', b':', i]);
        let val = Bytes::from(vec![i]);
        art.set(&key, val.to_vec());
    }

    let results = pairs(art.getn(&Bytes::from_static(b"x:")));

    assert_eq!(results.len(), 20);
}

#[test]
fn test_deln_basic() {
    let mut art = OxidArt::new();

    art.set(&Bytes::from_static(b"user:alice"), Bytes::from_static(b"alice_data").to_vec());
    art.set(&Bytes::from_static(b"user:bob"), Bytes::from_static(b"bob_data").to_vec());
    art.set(&Bytes::from_static(b"user:charlie"), Bytes::from_static(b"charlie_data").to_vec());
    art.set(&Bytes::from_static(b"post:1"), Bytes::from_static(b"post_1").to_vec());

    let deleted = art.deln(&Bytes::from_static(b"user:"));

    assert_eq!(deleted, 3);
    assert_eq!(art.get(&Bytes::from_static(b"user:alice")).map(Bytes::from), None);
    assert_eq!(art.get(&Bytes::from_static(b"user:bob")).map(Bytes::from), None);
    assert_eq!(art.get(&Bytes::from_static(b"user:charlie")).map(Bytes::from), None);
    assert_eq!(
        art.get(&Bytes::from_static(b"post:1")).map(Bytes::from),
        Some(Bytes::from_static(b"post_1"))
    );
}

#[test]
fn test_deln_empty_prefix() {
    let mut art = OxidArt::new();

    art.set(&Bytes::from_static(b"a"), Bytes::from_static(b"1").to_vec());
    art.set(&Bytes::from_static(b"b"), Bytes::from_static(b"2").to_vec());
    art.set(&Bytes::from_static(b"c"), Bytes::from_static(b"3").to_vec());

    let deleted = art.deln(&Bytes::from_static(b""));

    assert_eq!(deleted, 3);
    assert_eq!(art.get(&Bytes::from_static(b"a")).map(Bytes::from), None);
    assert_eq!(art.get(&Bytes::from_static(b"b")).map(Bytes::from), None);
    assert_eq!(art.get(&Bytes::from_static(b"c")).map(Bytes::from), None);
}

#[test]
fn test_deln_no_match() {
    let mut art = OxidArt::new();

    art.set(&Bytes::from_static(b"user:alice"), Bytes::from_static(b"data").to_vec());

    let deleted = art.deln(&Bytes::from_static(b"post:"));

    assert_eq!(deleted, 0);
    assert_eq!(
        art.get(&Bytes::from_static(b"user:alice")).map(Bytes::from),
        Some(Bytes::from_static(b"data"))
    );
}

#[test]
fn test_deln_exact_key_with_children() {
    let mut art = OxidArt::new();

    art.set(&Bytes::from_static(b"user"), Bytes::from_static(b"user_val").to_vec());
    art.set(&Bytes::from_static(b"user:alice"), Bytes::from_static(b"alice_val").to_vec());
    art.set(&Bytes::from_static(b"user:bob"), Bytes::from_static(b"bob_val").to_vec());

    let deleted = art.deln(&Bytes::from_static(b"user"));

    assert_eq!(deleted, 3);
    assert_eq!(art.get(&Bytes::from_static(b"user")).map(Bytes::from), None);
    assert_eq!(art.get(&Bytes::from_static(b"user:alice")).map(Bytes::from), None);
    assert_eq!(art.get(&Bytes::from_static(b"user:bob")).map(Bytes::from), None);
}

#[test]
fn test_deln_prefix_in_compression() {
    let mut art = OxidArt::new();

    art.set(&Bytes::from_static(b"application"), Bytes::from_static(b"app_val").to_vec());
    art.set(&Bytes::from_static(b"apple"), Bytes::from_static(b"apple_val").to_vec());

    let deleted = art.deln(&Bytes::from_static(b"app"));

    assert_eq!(deleted, 2);
    assert_eq!(art.get(&Bytes::from_static(b"application")).map(Bytes::from), None);
    assert_eq!(art.get(&Bytes::from_static(b"apple")).map(Bytes::from), None);
}

#[test]
fn test_deln_with_nested_keys() {
    let mut art = OxidArt::new();

    art.set(&Bytes::from_static(b"a"), Bytes::from_static(b"1").to_vec());
    art.set(&Bytes::from_static(b"ab"), Bytes::from_static(b"2").to_vec());
    art.set(&Bytes::from_static(b"abc"), Bytes::from_static(b"3").to_vec());
    art.set(&Bytes::from_static(b"abcd"), Bytes::from_static(b"4").to_vec());
    art.set(&Bytes::from_static(b"abd"), Bytes::from_static(b"5").to_vec());
    art.set(&Bytes::from_static(b"b"), Bytes::from_static(b"6").to_vec());

    let deleted = art.deln(&Bytes::from_static(b"ab"));

    assert_eq!(deleted, 4); // ab, abc, abcd, abd
    assert_eq!(
        art.get(&Bytes::from_static(b"a")).map(Bytes::from),
        Some(Bytes::from_static(b"1"))
    );
    assert_eq!(art.get(&Bytes::from_static(b"ab")).map(Bytes::from), None);
    assert_eq!(art.get(&Bytes::from_static(b"abc")).map(Bytes::from), None);
    assert_eq!(
        art.get(&Bytes::from_static(b"b")).map(Bytes::from),
        Some(Bytes::from_static(b"6"))
    );
}

#[test]
fn test_deln_many_children() {
    let mut art = OxidArt::new();

    for i in 0..20u8 {
        let key = Bytes::from(vec![b'x', b':', i]);
        let val = Bytes::from(vec![i]);
        art.set(&key, val.to_vec());
    }

    let deleted = art.deln(&Bytes::from_static(b"x:"));

    assert_eq!(deleted, 20);

    for i in 0..20u8 {
        let key = Bytes::from(vec![b'x', b':', i]);
        assert_eq!(art.get(&key).map(Bytes::from), None);
    }
}

#[test]
fn test_deln_then_insert() {
    let mut art = OxidArt::new();

    art.set(&Bytes::from_static(b"user:alice"), Bytes::from_static(b"old").to_vec());
    art.deln(&Bytes::from_static(b"user:"));

    art.set(&Bytes::from_static(b"user:bob"), Bytes::from_static(b"new").to_vec());

    assert_eq!(art.get(&Bytes::from_static(b"user:alice")).map(Bytes::from), None);
    assert_eq!(
        art.get(&Bytes::from_static(b"user:bob")).map(Bytes::from),
        Some(Bytes::from_static(b"new"))
    );
}

#[test]
fn test_deln_partial_match() {
    let mut art = OxidArt::new();

    art.set(&Bytes::from_static(b"hello"), Bytes::from_static(b"1").to_vec());
    art.set(&Bytes::from_static(b"help"), Bytes::from_static(b"2").to_vec());
    art.set(&Bytes::from_static(b"world"), Bytes::from_static(b"3").to_vec());

    let deleted = art.deln(&Bytes::from_static(b"hel"));

    assert_eq!(deleted, 2);
    assert_eq!(art.get(&Bytes::from_static(b"hello")).map(Bytes::from), None);
    assert_eq!(art.get(&Bytes::from_static(b"help")).map(Bytes::from), None);
    assert_eq!(
        art.get(&Bytes::from_static(b"world")).map(Bytes::from),
        Some(Bytes::from_static(b"3"))
    );
}

