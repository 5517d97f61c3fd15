//! Tree nodes and the comparison of a node's compressed path against the
//! unconsumed tail of a key.
use vstd::prelude::*;
use crate::childs::Childs;
use crate::ext::{comp_as_slice, comp_bytes, comp_from_slice, CompBuf};

verus! {

/// `n` is the length of the longest common prefix of `a` and `b`.
pub open spec fn is_common_len(a: Seq<u8>, b: Seq<u8>, n: int) -> bool {
    &&& 0 <= n <= a.len()
    &&& n <= b.len()
    &&& a.subrange(0, n) == b.subrange(0, n)
    &&& (n < a.len() && n < b.len() ==> a[n] != b[n])
}

/// `p` is a prefix of `s`.
pub open spec fn is_prefix(p: Seq<u8>, s: Seq<u8>) -> bool {
    p.len() <= s.len() && s.subrange(0, p.len() as int) == p
}

/// How a key tail relates to a node's compression.
pub enum CompResult {
    /// The compression is a proper prefix of the tail: descend further.
    Path,
    /// The tail equals the compression: the key ends at this node.
    Final,
    /// The two diverge after the given number of common bytes.
    Partial(usize),
}

/// A tree node: the compressed path below its parent's decision byte, the
/// value of the key that ends here, if any, and its child table.
pub struct Node {
    pub compression: CompBuf,
    pub val: Option<Vec<u8>>,
    pub childs: Childs,
}

impl Node {
    /// The compressed path of the node.
    pub open spec fn comp(&self) -> Seq<u8> {
        comp_bytes(self.compression)
    }

    /// The value stored at the node, if any.
    pub open spec fn value(&self) -> Option<Seq<u8>> {
        match self.val {
            Some(v) => Some(v@),
            None => None,
        }
    }

    /// A node with an empty compression, no value and no children.
    pub fn empty() -> (r: Node)
        ensures
            r.comp() == Seq::<u8>::empty(),
            r.val is None,
            r.childs.wf(),
            r.childs.entries().len() == 0,
            r.childs.overflow() is None,
    {
        let none: [u8; 0] = [];
        Node { compression: comp_from_slice(none.as_slice()), val: None, childs: Childs::new() }
    }

    /// A childless node holding `val`.
    pub fn new_leaf(compression: &[u8], val: Vec<u8>) -> (r: Node)
        ensures
            r.comp() == compression@,
            r.val == Some(val),
            r.childs.wf(),
            r.childs.entries().len() == 0,
            r.childs.overflow() is None,
    {
        Node { compression: comp_from_slice(compression), val: Some(val), childs: Childs::new() }
    }

    /// Replaces the node's value.
    pub fn set_val(&mut self, val: Vec<u8>)
        ensures
            final(self).val == Some(val),
            final(self).compression == old(self).compression,
            final(self).childs == old(self).childs,
    {
        self.val = Some(val);
    }

    /// The index of the node's overflow region, if it has one.
    pub fn get_huge_childs_idx(&self) -> (r: Option<usize>)
        ensures
            r == self.childs.overflow(),
    {
        self.childs.get_next_idx()
    }

    /// Length of the common prefix of the compression and `key_rest`.
    pub fn get_common_len(&self, key_rest: &[u8]) -> (r: usize)
        ensures
            is_common_len(self.comp(), key_rest@, r as int),
    {
        let c = comp_as_slice(&self.compression);
        let len = if c.len() < key_rest.len() { c.len() } else { key_rest.len() };
        let mut i: usize = 0;
        while i < len
            invariant
                i <= len,
                len <= c@.len(),
                len <= key_rest@.len(),
                c@ == self.comp(),
                len == c@.len() || len == key_rest@.len(),
                forall|j: int| 0 <= j < i ==> c@[j] == key_rest@[j],
            decreases len - i,
        {
            if c[i] != key_rest[i] {
                assert(c@.subrange(0, i as int) =~= key_rest@.subrange(0, i as int));
                return i;
            }
            i = i + 1;
        }
        assert(c@.subrange(0, len as int) =~= key_rest@.subrange(0, len as int));
        len
    }

    /// Classifies `key_rest` against the compression.
    pub fn compare_compression_key(&self, key_rest: &[u8]) -> (r: CompResult)
        ensures
            match r {
                CompResult::Final => self.comp() == key_rest@,
                CompResult::Path => self.comp().len() < key_rest@.len() && is_prefix(
                    self.comp(),
                    key_rest@,
                ),
                CompResult::Partial(n) => {
                    &&& self.comp() != key_rest@
                    &&& !(self.comp().len() < key_rest@.len() && is_prefix(self.comp(), key_rest@))
                    &&& is_common_len(self.comp(), key_rest@, n as int)
                },
            },
    {
        let clen = comp_as_slice(&self.compression).len();
        let common_len = self.get_common_len(key_rest);
        if clen == key_rest.len() {
            if common_len == key_rest.len() {
                assert(self.comp() =~= key_rest@.subrange(0, common_len as int));
                assert(key_rest@ =~= key_rest@.subrange(0, common_len as int));
                CompResult::Final
            } else {
                CompResult::Partial(common_len)
            }
        } else if clen > key_rest.len() {
            CompResult::Partial(common_len)
        } else {
            if common_len == clen {
                assert(self.comp() =~= self.comp().subrange(0, clen as int));
                CompResult::Path
            } else {
                CompResult::Partial(common_len)
            }
        }
    }
}

} // verus!
