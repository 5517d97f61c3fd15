//! Per-node child tables: a small primary region kept inside the node and a
//! large overflow region kept in an arena of its own.
use vstd::prelude::*;
use arrayvec::ArrayVec;
use crate::ext::{
    overflow_at, overflow_entries, overflow_len, overflow_new, overflow_push,
    overflow_swap_remove, primary_at, primary_entries, primary_len, primary_new, primary_push,
    primary_swap_remove,
};

verus! {

/// Capacity of the primary child region.
pub const CHILDS_SIZE: usize = 10;

/// Capacity of the overflow child region: with the primary region it holds
/// one child for each of the 128 ASCII bytes.
pub const HUGE_CHILDS_SIZE: usize = 118;

/// No radix occurs twice among the entries.
pub open spec fn radixes_unique(s: Seq<(u8, usize)>) -> bool {
    forall|i: int, j: int|
        0 <= i < s.len() && 0 <= j < s.len() && s[i].0 == s[j].0 ==> i == j
}

/// The entries read as a map from radix to child index.
pub open spec fn entries_map(s: Seq<(u8, usize)>) -> Map<u8, usize> {
    Map::new(
        |r: u8| exists|i: int| 0 <= i < s.len() && s[i].0 == r,
        |r: u8| s[choose|i: int| 0 <= i < s.len() && s[i].0 == r].1,
    )
}

/// The child stored under `r`, if any.
pub open spec fn map_lookup(m: Map<u8, usize>, r: u8) -> Option<usize> {
    if m.dom().contains(r) {
        Some(m[r])
    } else {
        None
    }
}

/// Under distinct radixes, entry `i` is what the map holds for its radix.
pub proof fn lemma_entry_in_map(s: Seq<(u8, usize)>, i: int)
    requires
        radixes_unique(s),
        0 <= i < s.len(),
    ensures
        entries_map(s).dom().contains(s[i].0),
        entries_map(s)[s[i].0] == s[i].1,
{
    let r = s[i].0;
    assert(exists|k: int| 0 <= k < s.len() && s[k].0 == r);
    let k = choose|k: int| 0 <= k < s.len() && s[k].0 == r;
    assert(k == i);
}

proof fn lemma_push(s: Seq<(u8, usize)>, e: (u8, usize))
    requires
        radixes_unique(s),
        !entries_map(s).dom().contains(e.0),
    ensures
        radixes_unique(s.push(e)),
        entries_map(s.push(e)) == entries_map(s).insert(e.0, e.1),
{
    let t = s.push(e);
    assert forall|i: int| 0 <= i < s.len() implies s[i].0 != e.0 by {
        if s[i].0 == e.0 {
            assert(entries_map(s).dom().contains(e.0));
        }
    }
    assert(radixes_unique(t));
    assert forall|r: u8| #[trigger] entries_map(t).dom().contains(r)
        <==> entries_map(s).insert(e.0, e.1).dom().contains(r) by {
        if r != e.0 && entries_map(t).dom().contains(r) {
            let k = choose|k: int| 0 <= k < t.len() && t[k].0 == r;
            assert(s[k].0 == r);
        }
        if r != e.0 && entries_map(s).dom().contains(r) {
            let k = choose|k: int| 0 <= k < s.len() && s[k].0 == r;
            assert(t[k].0 == r);
        }
        if r == e.0 {
            assert(t[s.len() as int].0 == r);
        }
    }
    assert forall|r: u8| #[trigger] entries_map(t).dom().contains(r)
        implies entries_map(t)[r] == entries_map(s).insert(e.0, e.1)[r] by {
        let k = choose|k: int| 0 <= k < t.len() && t[k].0 == r;
        lemma_entry_in_map(t, k);
        if r != e.0 {
            lemma_entry_in_map(s, k);
        }
    }
    assert(entries_map(t) =~= entries_map(s).insert(e.0, e.1));
}

proof fn lemma_swap_remove(s: Seq<(u8, usize)>, i: int)
    requires
        radixes_unique(s),
        0 <= i < s.len(),
    ensures
        radixes_unique(s.update(i, s.last()).drop_last()),
        entries_map(s.update(i, s.last()).drop_last()) == entries_map(s).remove(s[i].0),
{
    let t = s.update(i, s.last()).drop_last();
    let n = s.len() - 1;
    // position in `s` of the entry stored at position `k` of `t`
    assert forall|k: int| 0 <= k < t.len() implies t[k] == s[if k == i { n } else { k }] by {}
    assert(radixes_unique(t)) by {
        assert forall|a: int, b: int|
            0 <= a < t.len() && 0 <= b < t.len() && t[a].0 == t[b].0 implies a == b by {
            let sa = if a == i { n } else { a };
            let sb = if b == i { n } else { b };
            assert(s[sa].0 == s[sb].0);
        }
    }
    let m = entries_map(s).remove(s[i].0);
    assert forall|r: u8| #[trigger] entries_map(t).dom().contains(r) <==> m.dom().contains(r) by {
        if entries_map(t).dom().contains(r) {
            let k = choose|k: int| 0 <= k < t.len() && t[k].0 == r;
            let sk = if k == i { n } else { k };
            assert(s[sk].0 == r);
            assert(sk != i);
        }
        if m.dom().contains(r) {
            let k = choose|k: int| 0 <= k < s.len() && s[k].0 == r;
            assert(k != i);
            if k == n {
                assert(t[i].0 == r);
            } else {
                assert(t[k].0 == r);
            }
        }
    }
    assert forall|r: u8| #[trigger] entries_map(t).dom().contains(r) implies entries_map(t)[r]
        == m[r] by {
        let k = choose|k: int| 0 <= k < t.len() && t[k].0 == r;
        lemma_entry_in_map(t, k);
        let sk = if k == i { n } else { k };
        lemma_entry_in_map(s, sk);
    }
    assert(entries_map(t) =~= m);
}

/// Two regions with distinct ASCII radixes and no radix in common leave
/// room for one more ASCII radix that neither holds: together they hold fewer
/// than 128 entries.
pub proof fn lemma_room_for_radix(p: Seq<(u8, usize)>, q: Seq<(u8, usize)>, r: u8)
    requires
        radixes_unique(p),
        radixes_unique(q),
        forall|x: u8| #[trigger] entries_map(p).dom().contains(x) ==> x < 128,
        forall|x: u8| #[trigger] entries_map(q).dom().contains(x) ==> x < 128,
        forall|x: u8| #[trigger] entries_map(p).dom().contains(x) ==> !entries_map(q).dom().contains(x),
        !entries_map(p).dom().contains(r),
        !entries_map(q).dom().contains(r),
        r < 128,
    ensures
        p.len() + q.len() < 128,
{
    let f = |e: (u8, usize)| e.0 as int;
    let s = p.map_values(f) + q.map_values(f) + seq![r as int];
    assert forall|i: int| 0 <= i < p.len() implies entries_map(p).dom().contains(#[trigger] p[i].0) by {}
    assert forall|i: int| 0 <= i < q.len() implies entries_map(q).dom().contains(#[trigger] q[i].0) by {}
    assert forall|i: int, j: int| 0 <= i < s.len() && 0 <= j < s.len() && i != j implies s[i] != s[j] by {
        let np = p.len() as int;
        let nq = q.len() as int;
        if i < np && j < np {
        } else if i < np && j < np + nq {
            assert(entries_map(p).dom().contains(p[i].0));
            assert(entries_map(q).dom().contains(q[j - np].0));
        } else if j < np && i < np + nq {
            assert(entries_map(p).dom().contains(p[j].0));
            assert(entries_map(q).dom().contains(q[i - np].0));
        } else if i >= np && j >= np && i < np + nq && j < np + nq {
        } else if i == np + nq && j < np {
            assert(entries_map(p).dom().contains(p[j].0));
        } else if i == np + nq {
            assert(entries_map(q).dom().contains(q[j - np].0));
        } else if j == np + nq && i < np {
            assert(entries_map(p).dom().contains(p[i].0));
        } else {
            assert(entries_map(q).dom().contains(q[i - np].0));
        }
    }
    assert(s.no_duplicates());
    s.unique_seq_to_set();
    assert forall|x: int| s.to_set().contains(x) implies vstd::set_lib::set_int_range(0, 128).contains(x) by {
        let i = choose|i: int| 0 <= i < s.len() && s[i] == x;
        let np = p.len() as int;
        let nq = q.len() as int;
        if i < np {
            assert(entries_map(p).dom().contains(p[i].0));
        } else if i < np + nq {
            assert(entries_map(q).dom().contains(q[i - np].0));
        }
    }
    vstd::set_lib::lemma_int_range(0, 128);
    vstd::set_lib::lemma_len_subset(s.to_set(), vstd::set_lib::set_int_range(0, 128));
}

/// The primary child region of a node, with the index of its overflow
/// region in the overflow arena, if it has one.
pub struct Childs {
    entries: ArrayVec<(u8, usize), 10>,
    maybe_next_childs_idx: Option<usize>,
}

impl Childs {
    /// The entries of the primary region, in storage order.
    pub closed spec fn entries(&self) -> Seq<(u8, usize)> {
        primary_entries(self.entries)
    }

    /// The index of the overflow region, if one is attached.
    pub closed spec fn overflow(&self) -> Option<usize> {
        self.maybe_next_childs_idx
    }

    /// The primary region as a map from radix to child index.
    pub open spec fn table(&self) -> Map<u8, usize> {
        entries_map(self.entries())
    }

    pub open spec fn wf(&self) -> bool {
        radixes_unique(self.entries())
    }

    /// An empty table with no overflow region.
    pub fn new() -> (r: Childs)
        ensures
            r.wf(),
            r.entries() == Seq::<(u8, usize)>::empty(),
            r.table() == Map::<u8, usize>::empty(),
            r.overflow() is None,
    {
        let r = Childs { entries: primary_new(), maybe_next_childs_idx: None };
        assert(r.table() =~= Map::<u8, usize>::empty());
        r
    }

    /// Position of `radix` in the primary region.
    fn position(&self, radix: u8) -> (r: Option<usize>)
        ensures
            match r {
                Some(i) => i < self.entries().len() && self.entries()[i as int].0 == radix,
                None => forall|i: int|
                    0 <= i < self.entries().len() ==> self.entries()[i].0 != radix,
            },
    {
        let n = primary_len(&self.entries);
        let mut i: usize = 0;
        while i < n
            invariant
                i <= n,
                n == self.entries().len(),
                forall|j: int| 0 <= j < i ==> self.entries()[j].0 != radix,
            decreases n - i,
        {
            if primary_at(&self.entries, i).0 == radix {
                return Some(i);
            }
            i = i + 1;
        }
        None
    }

    /// The child stored under `radix` in the primary region.
    pub fn find(&self, radix: u8) -> (r: Option<usize>)
        requires
            self.wf(),
        ensures
            r == map_lookup(self.table(), radix),
    {
        match self.position(radix) {
            Some(i) => {
                proof {
                    lemma_entry_in_map(self.entries(), i as int);
                }
                Some(primary_at(&self.entries, i).1)
            },
            None => {
                assert(!self.table().dom().contains(radix));
                None
            },
        }
    }

    /// Adds a child under a radix the table does not hold yet.
    pub fn push(&mut self, radix: u8, idx: usize)
        requires
            old(self).wf(),
            !old(self).table().dom().contains(radix),
            old(self).entries().len() < CHILDS_SIZE,
        ensures
            final(self).wf(),
            final(self).entries() == old(self).entries().push((radix, idx)),
            final(self).table() == old(self).table().insert(radix, idx),
            final(self).overflow() == old(self).overflow(),
    {
        proof {
            lemma_push(self.entries(), (radix, idx));
        }
        primary_push(&mut self.entries, (radix, idx));
    }

    /// Takes the child stored under `radix` out of the primary region.
    pub fn remove(&mut self, radix: u8) -> (r: Option<usize>)
        requires
            old(self).wf(),
        ensures
            final(self).wf(),
            r == map_lookup(old(self).table(), radix),
            final(self).table() == old(self).table().remove(radix),
            final(self).overflow() == old(self).overflow(),
            final(self).entries().len() == old(self).entries().len() - (if r is Some { 1int } else { 0 }),
    {
        match self.position(radix) {
            Some(i) => {
                proof {
                    lemma_entry_in_map(self.entries(), i as int);
                    lemma_swap_remove(self.entries(), i as int);
                }
                let e = primary_swap_remove(&mut self.entries, i);
                Some(e.1)
            },
            None => {
                assert(self.table().remove(radix) =~= self.table());
                None
            },
        }
    }

    /// The primary region holds no entry.
    pub fn is_empty(&self) -> (r: bool)
        ensures
            r == (self.entries().len() == 0),
    {
        primary_len(&self.entries) == 0
    }

    /// The primary region is saturated.
    pub fn is_full(&self) -> (r: bool)
        ensures
            r == (self.entries().len() == CHILDS_SIZE),
            self.entries().len() <= CHILDS_SIZE,
    {
        primary_len(&self.entries) == CHILDS_SIZE
    }

    /// Number of entries in the primary region.
    pub fn len(&self) -> (r: usize)
        ensures
            r == self.entries().len(),
            r <= CHILDS_SIZE,
    {
        primary_len(&self.entries)
    }

    /// Entry `i` of the primary region.
    pub fn entry_at(&self, i: usize) -> (r: (u8, usize))
        requires
            i < self.entries().len(),
        ensures
            r == self.entries()[i as int],
    {
        primary_at(&self.entries, i)
    }

    /// The index of the overflow region, if one is attached.
    pub fn get_next_idx(&self) -> (r: Option<usize>)
        ensures
            r == self.overflow(),
    {
        self.maybe_next_childs_idx
    }

    /// Attaches an overflow region to a table that has none.
    pub fn set_new_childs(&mut self, idx: usize)
        requires
            old(self).overflow() is None,
        ensures
            final(self).overflow() == Some(idx),
            final(self).entries() == old(self).entries(),
    {
        self.maybe_next_childs_idx = Some(idx);
    }

    /// The single child, when the primary region holds exactly one entry and
    /// no overflow region is attached.
    pub fn get_single_child(&self) -> (r: Option<(u8, usize)>)
        ensures
            r == (if self.entries().len() == 1 && self.overflow() is None {
                Some(self.entries()[0])
            } else {
                None
            }),
    {
        if primary_len(&self.entries) == 1 && self.maybe_next_childs_idx.is_none() {
            Some(primary_at(&self.entries, 0))
        } else {
            None
        }
    }
}

/// An overflow child region, kept in its own arena and linked from a
/// node's primary region once that one is full.
pub struct HugeChilds {
    entries: ArrayVec<(u8, usize), 118>,
}

impl HugeChilds {
    /// The entries of the region, in storage order.
    pub closed spec fn entries(&self) -> Seq<(u8, usize)> {
        overflow_entries(self.entries)
    }

    /// The region as a map from radix to child index.
    pub open spec fn table(&self) -> Map<u8, usize> {
        entries_map(self.entries())
    }

    pub open spec fn wf(&self) -> bool {
        radixes_unique(self.entries())
    }

    /// A region holding the one entry `(radix, idx)`.
    pub fn new(radix: u8, idx: usize) -> (r: HugeChilds)
        ensures
            r.wf(),
            r.entries() == seq![(radix, idx)],
            r.table() == Map::<u8, usize>::empty().insert(radix, idx),
    {
        let mut entries = overflow_new();
        proof {
            assert(entries_map(overflow_entries(entries)) =~= Map::<u8, usize>::empty());
            lemma_push(overflow_entries(entries), (radix, idx));
        }
        overflow_push(&mut entries, (radix, idx));
        let r = HugeChilds { entries };
        assert(r.entries() =~= seq![(radix, idx)]);
        r
    }

    /// Position of `radix` in the region.
    fn position(&self, radix: u8) -> (r: Option<usize>)
        ensures
            match r {
                Some(i) => i < self.entries().len() && self.entries()[i as int].0 == radix,
                None => forall|i: int|
                    0 <= i < self.entries().len() ==> self.entries()[i].0 != radix,
            },
    {
        let n = overflow_len(&self.entries);
        let mut i: usize = 0;
        while i < n
            invariant
                i <= n,
                n == self.entries().len(),
                forall|j: int| 0 <= j < i ==> self.entries()[j].0 != radix,
            decreases n - i,
        {
            if overflow_at(&self.entries, i).0 == radix {
                return Some(i);
            }
            i = i + 1;
        }
        None
    }

    /// The child stored under `radix`.
    pub fn find(&self, radix: u8) -> (r: Option<usize>)
        requires
            self.wf(),
        ensures
            r == map_lookup(self.table(), radix),
    {
        match self.position(radix) {
            Some(i) => {
                proof {
                    lemma_entry_in_map(self.entries(), i as int);
                }
                Some(overflow_at(&self.entries, i).1)
            },
            None => {
                assert(!self.table().dom().contains(radix));
                None
            },
        }
    }

    /// Adds a child under a radix the region does not hold yet.
    pub fn push(&mut self, radix: u8, idx: usize)
        requires
            old(self).wf(),
            !old(self).table().dom().contains(radix),
            old(self).entries().len() < HUGE_CHILDS_SIZE,
        ensures
            final(self).wf(),
            final(self).entries() == old(self).entries().push((radix, idx)),
            final(self).table() == old(self).table().insert(radix, idx),
    {
        proof {
            lemma_push(self.entries(), (radix, idx));
        }
        overflow_push(&mut self.entries, (radix, idx));
    }

    /// Takes the child stored under `radix` out of the region.
    pub fn remove(&mut self, radix: u8) -> (r: Option<usize>)
        requires
            old(self).wf(),
        ensures
            final(self).wf(),
            r == map_lookup(old(self).table(), radix),
            final(self).table() == old(self).table().remove(radix),
            final(self).entries().len() == old(self).entries().len() - (if r is Some { 1int } else { 0 }),
    {
        match self.position(radix) {
            Some(i) => {
                proof {
                    lemma_entry_in_map(self.entries(), i as int);
                    lemma_swap_remove(self.entries(), i as int);
                }
                let e = overflow_swap_remove(&mut self.entries, i);
                Some(e.1)
            },
            None => {
                assert(self.table().remove(radix) =~= self.table());
                None
            },
        }
    }

    /// The region holds no entry.
    pub fn is_empty(&self) -> (r: bool)
        ensures
            r == (self.entries().len() == 0),
    {
        overflow_len(&self.entries) == 0
    }

    /// The region is saturated.
    pub fn is_full(&self) -> (r: bool)
        ensures
            r == (self.entries().len() == HUGE_CHILDS_SIZE),
            self.entries().len() <= HUGE_CHILDS_SIZE,
    {
        overflow_len(&self.entries) == HUGE_CHILDS_SIZE
    }

    /// Number of entries in the region.
    pub fn len(&self) -> (r: usize)
        ensures
            r == self.entries().len(),
            r <= HUGE_CHILDS_SIZE,
    {
        overflow_len(&self.entries)
    }

    /// Entry `i` of the region.
    pub fn entry_at(&self, i: usize) -> (r: (u8, usize))
        requires
            i < self.entries().len(),
        ensures
            r == self.entries()[i as int],
    {
        overflow_at(&self.entries, i)
    }
}

} // verus!
