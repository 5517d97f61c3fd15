use oxidart::childs::{Childs, HugeChilds};
use oxidart::SmallStr;

#[test]
fn small_str_keeps_nineteen_bytes() {
    let s = SmallStr::from_bytes(b"abcdefghijklmnopqrstuvwxyz");
    assert_eq!(s.len(), 19);
    assert_eq!(s.as_slice(), b"abcdefghijklmnopqrs");
    assert_eq!(s.as_str(), "abcdefghijklmnopqrs");
    let t = SmallStr::from_bytes(b"hi");
    assert_eq!(t.len(), 2);
    assert_eq!(t.as_slice(), b"hi");
    assert_eq!(SmallStr::empty().len(), 0);
}

#[test]
fn small_str_common_prefixes() {
    let s = SmallStr::from_bytes(b"hello");
    assert_eq!(s.common_at(b"help me", 0), 3);
    assert_eq!(s.common_at(b"hello world", 0), 5);
    assert_eq!(s.common_at(b"hello", 3), 2);
    assert_eq!(s.common_at(b"xyz", 0), 0);
    assert_eq!(s.common_at(b"abc", 3), 0);
    let t = SmallStr::from_bytes(b"helium");
    assert_eq!(s.common_prefix_len(&t), 3);
    assert_eq!(s.common_prefix_len(&s), 5);
}

#[test]
fn primary_region_find_push_remove() {
    let mut c = Childs::new();
    assert!(c.is_empty());
    assert_eq!(c.find(b'a'), None);
    c.push(b'a', 7);
    c.push(b'b', 9);
    assert_eq!(c.find(b'a'), Some(7));
    assert_eq!(c.find(b'b'), Some(9));
    assert_eq!(c.get_single_child(), None);
    assert_eq!(c.remove(b'a'), Some(7));
    assert_eq!(c.remove(b'a'), None);
    assert_eq!(c.find(b'b'), Some(9));
    assert_eq!(c.entry_at(0), (b'b', 9));
    assert_eq!(c.get_single_child(), Some((b'b', 9)));
    for r in 0..9u8 {
        c.push(r, r as usize);
    }
    assert!(c.is_full());
    assert_eq!(c.len(), 10);
    assert_eq!(c.get_next_idx(), None);
    c.set_new_childs(3);
    assert_eq!(c.get_next_idx(), Some(3));
    assert_eq!(c.get_single_child(), None);
}

#[test]
fn overflow_region_find_push_remove() {
    let mut h = HugeChilds::new(b'z', 40);
    assert_eq!(h.find(b'z'), Some(40));
    for r in 0..117u8 {
        h.push(r, 100 + r as usize);
    }
    assert!(h.is_full());
    assert_eq!(h.len(), 118);
    assert_eq!(h.remove(b'z'), Some(40));
    assert_eq!(h.find(b'z'), None);
    assert_eq!(h.find(5), Some(105));
    assert_eq!(h.entry_at(0).0, 116);
    assert!(!h.is_empty());
}
