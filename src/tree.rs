//! The tree engine: nodes in one arena, overflow child regions in another,
//! and the point and prefix operations over them.
use vstd::prelude::*;
use slab::Slab;
use crate::childs::{lemma_entry_in_map, lemma_room_for_radix, map_lookup, Childs, HugeChilds, CHILDS_SIZE};
use crate::ext::{
    comp_as_slice, comp_from_slice, node_slab_get, node_slab_insert, node_slab_len, node_slab_new,
    node_slab_at_mut, node_slab_remove, node_slots, table_slab_get, table_slab_insert,
    table_slab_at_mut, table_slab_new, table_slab_remove, table_slots,
};
use crate::node::{is_common_len, is_prefix, CompResult, Node};

verus! {

/// A copy of a byte vector.
fn copy_bytes(v: &Vec<u8>) -> (r: Vec<u8>)
    ensures
        r@ == v@,
{
    let r = v.clone();
    assert(r@ =~= v@);
    r
}

/// A compressed adaptive radix tree mapping byte-string keys to byte-string
/// values.
///
/// Nodes live in an arena and refer to their children by arena index; a
/// node's key is every byte read on the way down to it from the root.
pub struct OxidArt {
    map: Slab<Node>,
    child_list: Slab<HugeChilds>,
    root_idx: usize,
    paths: Ghost<Map<usize, Seq<u8>>>,
}

impl Default for OxidArt {
    /// An empty tree.
    fn default() -> (r: Self)
        ensures
            r.wf(),
            forall|k: Seq<u8>| #[trigger] r.lookup(k) is None,
    {
        Self::new()
    }
}

impl OxidArt {
    /// The occupied slots of the node arena.
    pub closed spec fn nodes(&self) -> Map<usize, Node> {
        node_slots(self.map)
    }

    /// The occupied slots of the overflow-region arena.
    pub closed spec fn tables(&self) -> Map<usize, HugeChilds> {
        table_slots(self.child_list)
    }

    /// The index of the root node.
    pub closed spec fn root(&self) -> usize {
        self.root_idx
    }

    /// The key of each node: the radixes and compressions read from the root
    /// down to the end of its own compression.
    pub closed spec fn paths(&self) -> Map<usize, Seq<u8>> {
        self.paths@
    }

    /// The child of node `n` under radix `r`: the primary region first, then
    /// the overflow region.
    pub open spec fn child_of(&self, n: Node, r: u8) -> Option<usize> {
        match map_lookup(n.childs.table(), r) {
            Some(c) => Some(c),
            None => match n.childs.overflow() {
                Some(h) => if self.tables().dom().contains(h) {
                    map_lookup(self.tables()[h].table(), r)
                } else {
                    None
                },
                None => None,
            },
        }
    }

    /// The node at which `key` ends when read downwards from node `idx`:
    /// each step takes the child under the next byte and then consumes that
    /// child's whole compression.
    pub open spec fn descend(&self, idx: usize, key: Seq<u8>) -> Option<usize>
        decreases key.len(),
    {
        if !self.nodes().dom().contains(idx) {
            None
        } else if key.len() == 0 {
            Some(idx)
        } else {
            match self.child_of(self.nodes()[idx], key[0]) {
                None => None,
                Some(c) => {
                    let rest = key.subrange(1, key.len() as int);
                    if self.nodes().dom().contains(c) && is_prefix(self.nodes()[c].comp(), rest) {
                        self.descend(c, rest.subrange(self.nodes()[c].comp().len() as int, rest.len() as int))
                    } else {
                        None
                    }
                },
            }
        }
    }

    /// The value stored under `key`.
    pub open spec fn lookup(&self, key: Seq<u8>) -> Option<Seq<u8>> {
        match self.descend(self.root(), key) {
            Some(n) => self.nodes()[n].value(),
            None => None,
        }
    }

    /// Number of nodes in the arena, the root included.
    pub open spec fn node_count(&self) -> nat {
        self.nodes().len()
    }

    /// Every byte of `s` is ASCII.
    pub open spec fn is_ascii(s: Seq<u8>) -> bool {
        forall|i: int| 0 <= i < s.len() ==> s[i] < 128
    }

    /// Every radix of the table is ASCII.
    pub open spec fn ascii_radixes(m: Map<u8, usize>) -> bool {
        forall|r: u8| #[trigger] m.dom().contains(r) ==> r < 128
    }

    /// No entry of the table leads to node `root`.
    pub open spec fn avoids(m: Map<u8, usize>, root: usize) -> bool {
        forall|r: u8| #[trigger] m.dom().contains(r) ==> m[r] != root
    }

    /// What each node in the arena satisfies on its own: distinct ASCII
    /// radixes, no child that is the root, and an overflow region that
    /// exists and shares no radix with the primary region.
    pub open spec fn node_ok(&self, n: Node) -> bool {
        &&& Self::is_ascii(n.comp())
        &&& n.childs.wf()
        &&& Self::avoids(n.childs.table(), self.root())
        &&& Self::ascii_radixes(n.childs.table())
        &&& (n.childs.overflow() matches Some(h) ==> {
            &&& self.tables().dom().contains(h)
            &&& forall|r: u8| #[trigger] n.childs.table().dom().contains(r)
                ==> !self.tables()[h].table().dom().contains(r)
        })
    }

    /// Canonical shape: a node below the root holds a value, or at least two
    /// children in its primary region, or an overflow region.
    pub open spec fn canonical(n: Node) -> bool {
        n.val is Some || n.childs.entries().len() >= 2 || n.childs.overflow() is Some
    }

    /// Two distinct nodes never share an overflow region.
    pub open spec fn overflow_owned(&self) -> bool {
        forall|i: usize, j: usize|
            #![trigger self.nodes()[i].childs.overflow(), self.nodes()[j].childs.overflow()]
            self.nodes().dom().contains(i) && self.nodes().dom().contains(j) && i != j
                && self.nodes()[i].childs.overflow() is Some ==> self.nodes()[i].childs.overflow()
                != self.nodes()[j].childs.overflow()
    }

    /// Every child of a node is present, and its key is the parent's key
    /// followed by the radix and the child's compression.
    pub open spec fn edges_ok(&self) -> bool {
        forall|n: usize, r: u8| #![trigger self.child_of(self.nodes()[n], r)]
            self.nodes().dom().contains(n) && self.child_of(self.nodes()[n], r) is Some ==> {
                let c = self.child_of(self.nodes()[n], r)->0;
                &&& self.nodes().dom().contains(c)
                &&& self.paths()[c] == self.paths()[n].push(r) + self.nodes()[c].comp()
            }
    }

    /// Distinct nodes have distinct keys.
    pub open spec fn paths_injective(&self) -> bool {
        forall|i: usize, j: usize| #![trigger self.paths()[i], self.paths()[j]]
            self.nodes().dom().contains(i) && self.nodes().dom().contains(j) && self.paths()[i]
                == self.paths()[j] ==> i == j
    }

    /// Some node has `c` as a child.
    pub open spec fn has_parent(&self, c: usize) -> bool {
        exists|n: usize, r: u8|
            self.nodes().dom().contains(n) && #[trigger] self.child_of(self.nodes()[n], r) == Some(c)
    }

    /// Every node but the root is somebody's child.
    pub open spec fn parents_ok(&self) -> bool {
        forall|c: usize| self.nodes().dom().contains(c) && c != self.root() ==> #[trigger] self.has_parent(c)
    }

    /// Every node below the root but `x` has canonical shape.
    pub open spec fn shaped_except(&self, x: usize) -> bool {
        forall|i: usize| #[trigger]
            self.nodes().dom().contains(i) && i != self.root() && i != x ==> Self::canonical(self.nodes()[i])
    }

    /// The structural part of well-formedness: present root with an empty
    /// compression, keys for exactly the present nodes, well-formed nodes and
    /// overflow regions, single owners, keys that extend along every edge and
    /// differ between nodes.
    pub open spec fn wf_base(&self) -> bool {
        &&& self.nodes().dom().finite()
        &&& self.tables().dom().finite()
        &&& self.nodes().dom().contains(self.root())
        &&& self.nodes()[self.root()].comp().len() == 0
        &&& self.paths().dom() == self.nodes().dom()
        &&& self.paths()[self.root()] == Seq::<u8>::empty()
        &&& forall|i: usize| #[trigger]
            self.nodes().dom().contains(i) ==> self.node_ok(self.nodes()[i])
        &&& forall|h: usize| #[trigger]
            self.tables().dom().contains(h) ==> {
                &&& self.tables()[h].wf()
                &&& Self::avoids(self.tables()[h].table(), self.root())
                &&& Self::ascii_radixes(self.tables()[h].table())
            }
        &&& self.overflow_owned()
        &&& self.edges_ok()
        &&& self.paths_injective()
    }

    /// Everything well-formedness asks but that each node has a parent.
    pub open spec fn wf_core(&self) -> bool {
        self.wf_base() && self.shaped_except(self.root())
    }

    /// Well-formedness, except that node `x` may lack canonical shape.
    pub open spec fn wf_except(&self, x: usize) -> bool {
        self.wf_base() && self.shaped_except(x) && self.parents_ok()
    }

    /// Well-formedness: the arena holds a tree rooted at the root, with an
    /// empty root compression, keys that extend along every edge, distinct
    /// ASCII radixes per node, singly owned overflow regions, and canonical
    /// shape below the root.
    pub open spec fn wf(&self) -> bool {
        self.wf_core() && self.parents_ok()
    }

    /// `descend` from a node ends at a present node whose key is the start
    /// node's key followed by what was read.
    pub proof fn lemma_descend_path(&self, x: usize, s: Seq<u8>)
        requires
            self.wf_base(),
            self.nodes().dom().contains(x),
        ensures
            self.descend(x, s) matches Some(n) ==> self.nodes().dom().contains(n) && self.paths()[n]
                == self.paths()[x] + s,
        decreases s.len(),
    {
        if s.len() == 0 {
            assert(self.paths()[x] + s =~= self.paths()[x]);
        } else if let Some(c) = self.child_of(self.nodes()[x], s[0]) {
            let rest = s.subrange(1, s.len() as int);
            let comp = self.nodes()[c].comp();
            if self.nodes().dom().contains(c) && is_prefix(comp, rest) {
                let tail = rest.subrange(comp.len() as int, rest.len() as int);
                self.lemma_descend_path(c, tail);
                assert(s =~= seq![s[0]] + comp + tail);
                assert(self.paths()[c] + tail =~= self.paths()[x] + s);
            }
        }
    }

    /// `descend` from the root ends at the node whose key is what was read.
    pub proof fn lemma_descend_root(&self, k: Seq<u8>)
        requires
            self.wf_base(),
        ensures
            self.descend(self.root(), k) matches Some(n) ==> self.nodes().dom().contains(n)
                && self.paths()[n] == k,
    {
        self.lemma_descend_path(self.root(), k);
        assert(Seq::<u8>::empty() + k =~= k);
    }

    /// Every node is reached from the root by reading its key.
    pub proof fn lemma_reach(&self, n: usize)
        requires
            self.wf_base(),
            self.parents_ok(),
            self.nodes().dom().contains(n),
        ensures
            self.descend(self.root(), self.paths()[n]) == Some(n),
        decreases self.paths()[n].len(),
    {
        if n == self.root() {
            assert(self.descend(self.root(), Seq::<u8>::empty()) == Some(self.root()));
        } else {
            assert(self.has_parent(n));
            let (p, r) = choose|p: usize, r: u8|
                self.nodes().dom().contains(p) && #[trigger] self.child_of(self.nodes()[p], r) == Some(n);
            let comp = self.nodes()[n].comp();
            assert(self.paths()[n] == self.paths()[p].push(r) + comp);
            self.lemma_reach(p);
            self.lemma_descend_child(p, r, n);
            self.lemma_descend_append(self.root(), self.paths()[p], seq![r] + comp);
            assert(self.paths()[p] + (seq![r] + comp) =~= self.paths()[n]);
        }
    }

    /// The value stored under a node's key is that node's value.
    pub proof fn lemma_lookup_node(&self, n: usize)
        requires
            self.wf_base(),
            self.parents_ok(),
            self.nodes().dom().contains(n),
        ensures
            self.lookup(self.paths()[n]) == self.nodes()[n].value(),
    {
        self.lemma_reach(n);
    }

    /// A key that no node has holds no value.
    pub proof fn lemma_lookup_none(&self, k: Seq<u8>)
        requires
            self.wf_base(),
            forall|n: usize| self.nodes().dom().contains(n) ==> #[trigger] self.paths()[n] != k,
        ensures
            self.lookup(k) is None,
    {
        self.lemma_descend_root(k);
    }

    /// Reading `p` and then `s` from node `x` is reading `s` from the node at
    /// which `p` ends.
    pub proof fn lemma_descend_append(&self, x: usize, p: Seq<u8>, s: Seq<u8>)
        requires
            self.descend(x, p) is Some,
        ensures
            self.descend(x, p + s) == self.descend(self.descend(x, p)->0, s),
        decreases p.len(),
    {
        if p.len() == 0 {
            assert(p + s =~= s);
        } else {
            let ps = p + s;
            assert(ps[0] == p[0]);
            let c = self.child_of(self.nodes()[x], p[0])->0;
            let rest_p = p.subrange(1, p.len() as int);
            let rest_ps = ps.subrange(1, ps.len() as int);
            assert(rest_ps =~= rest_p + s);
            let comp = self.nodes()[c].comp();
            assert(rest_ps.subrange(0, comp.len() as int) =~= rest_p.subrange(0, comp.len() as int));
            let tail_p = rest_p.subrange(comp.len() as int, rest_p.len() as int);
            assert(rest_ps.subrange(comp.len() as int, rest_ps.len() as int) =~= tail_p + s);
            self.lemma_descend_append(c, tail_p, s);
        }
    }

    /// From node `n`, a radix and the compression of the child under it lead
    /// to that child.
    pub proof fn lemma_descend_child(&self, n: usize, r: u8, c: usize)
        requires
            self.nodes().dom().contains(n),
            self.child_of(self.nodes()[n], r) == Some(c),
            self.nodes().dom().contains(c),
        ensures
            self.descend(n, seq![r] + self.nodes()[c].comp()) == Some(c),
    {
        let comp = self.nodes()[c].comp();
        let key = seq![r] + comp;
        assert(key[0] == r);
        assert(key.subrange(1, key.len() as int) =~= comp);
        assert(comp.subrange(0, comp.len() as int) =~= comp);
        assert(comp.subrange(comp.len() as int, comp.len() as int) =~= Seq::<u8>::empty());
        reveal_with_fuel(OxidArt::descend, 2);
    }

    /// Node `idx` has no child under `radix`, so no node has the key that
    /// extends the node's key by `radix` and anything else.
    pub proof fn lemma_no_node_below_missing_child(&self, idx: usize, radix: u8, rest: Seq<u8>)
        requires
            self.wf(),
            self.nodes().dom().contains(idx),
            self.child_of(self.nodes()[idx], radix) is None,
        ensures
            forall|m: usize| self.nodes().dom().contains(m) ==> #[trigger] self.paths()[m]
                != self.paths()[idx].push(radix) + rest,
    {
        assert forall|m: usize| self.nodes().dom().contains(m) implies #[trigger] self.paths()[m]
            != self.paths()[idx].push(radix) + rest by {
            if self.paths()[m] == self.paths()[idx].push(radix) + rest {
                self.lemma_reach(m);
                self.lemma_reach(idx);
                self.lemma_descend_append(self.root(), self.paths()[idx], seq![radix] + rest);
                assert(self.paths()[idx] + (seq![radix] + rest) =~= self.paths()[idx].push(radix) + rest);
                assert((seq![radix] + rest)[0] == radix);
            }
        }
    }

    /// Replaces the value of node `idx`.
    fn set_node_val(&mut self, idx: usize, val: Vec<u8>)
        requires
            old(self).wf(),
            old(self).nodes().dom().contains(idx),
        ensures
            final(self).wf(),
            final(self).root() == old(self).root(),
            final(self).tables() == old(self).tables(),
            final(self).nodes().len() == old(self).nodes().len(),
            forall|k: Seq<u8>| #[trigger] final(self).lookup(k) == if k == old(self).paths()[idx] {
                Some(val@)
            } else {
                old(self).lookup(k)
            },
    {
        let ghost v = val@;
        let n = node_slab_at_mut(&mut self.map, idx);
        n.set_val(val);
        proof {
            let o = old(self);
            assert(self.nodes().dom() =~= o.nodes().dom());
            assert forall|i: usize| #[trigger] self.nodes().dom().contains(i) implies self.node_ok(self.nodes()[i]) by {
                assert(o.node_ok(o.nodes()[i]));
            }
            assert forall|i: usize, r: u8| self.nodes().dom().contains(i) implies #[trigger] self.child_of(self.nodes()[i], r)
                == o.child_of(o.nodes()[i], r) by {}
            assert forall|c: usize| self.nodes().dom().contains(c) && c != self.root() implies #[trigger] self.has_parent(c) by {
                assert(o.has_parent(c));
                let (p, r) = choose|p: usize, r: u8| o.nodes().dom().contains(p) && #[trigger] o.child_of(o.nodes()[p], r) == Some(c);
                assert(self.child_of(self.nodes()[p], r) == Some(c));
            }
            assert(self.edges_ok());
            assert(self.overflow_owned());
            assert(self.paths_injective());
            assert(self.wf());
            assert forall|k: Seq<u8>| #[trigger] self.lookup(k) == if k == o.paths()[idx] {
                Some(v)
            } else {
                o.lookup(k)
            } by {
                if k == o.paths()[idx] {
                    self.lemma_lookup_node(idx);
                } else if exists|m: usize| o.nodes().dom().contains(m) && #[trigger] o.paths()[m] == k {
                    let m = choose|m: usize| o.nodes().dom().contains(m) && #[trigger] o.paths()[m] == k;
                    self.lemma_lookup_node(m);
                    o.lemma_lookup_node(m);
                } else {
                    self.lemma_lookup_none(k);
                    o.lemma_lookup_none(k);
                }
            }
        }
    }

    /// Stores `node` in a vacant slot of the node arena and returns its
    /// index.
    fn insert(&mut self, node: Node) -> (r: usize)
        ensures
            final(self).tables() == old(self).tables(),
            final(self).root() == old(self).root(),
            final(self).paths() == old(self).paths(),
            !old(self).nodes().dom().contains(r),
            final(self).nodes() == old(self).nodes().insert(r, node),
            old(self).nodes().dom().finite() ==> final(self).nodes().len() == old(self).nodes().len() + 1,
    {
        node_slab_insert(&mut self.map, node)
    }

    /// Stores a new overflow region holding `(radix, idx)` and returns its
    /// index.
    fn intiate_new_huge_child(&mut self, radix: u8, idx: usize) -> (r: usize)
        ensures
            final(self).nodes() == old(self).nodes(),
            final(self).root() == old(self).root(),
            final(self).paths() == old(self).paths(),
            !old(self).tables().dom().contains(r),
            final(self).tables() == old(self).tables().insert(r, final(self).tables()[r]),
            final(self).tables()[r].wf(),
            final(self).tables()[r].table() == Map::<u8, usize>::empty().insert(radix, idx),
            final(self).tables()[r].entries() == seq![(radix, idx)],
    {
        table_slab_insert(&mut self.child_list, HugeChilds::new(radix, idx))
    }

    /// Hangs a new leaf holding `compression` and `val` under node `idx` at
    /// `radix`: in the primary region while it has room, else in the node's
    /// overflow region, which is created on first use.
    #[verifier::spinoff_prover]
    fn create_node_with_val(&mut self, idx: usize, radix: u8, val: Vec<u8>, compression: &[u8]) -> (l: usize)
        requires
            old(self).wf(),
            old(self).nodes().dom().contains(idx),
            old(self).child_of(old(self).nodes()[idx], radix) is None,
            radix < 128,
            Self::is_ascii(compression@),
        ensures
            final(self).wf(),
            final(self).root() == old(self).root(),
            final(self).nodes().len() == old(self).nodes().len() + 1,
            !old(self).nodes().dom().contains(l),
            final(self).nodes().dom() == old(self).nodes().dom().insert(l),
            final(self).child_of(final(self).nodes()[idx], radix) == Some(l),
            final(self).nodes()[l].comp() == compression@,
            final(self).nodes()[l].val == Some(val),
            final(self).nodes()[l].childs.entries().len() == 0,
            final(self).nodes()[l].childs.overflow() is None,
            forall|i: usize| #![trigger final(self).nodes()[i]]
                old(self).nodes().dom().contains(i) && i != idx ==> final(self).nodes()[i] == old(self).nodes()[i],
            final(self).nodes()[idx].comp() == old(self).nodes()[idx].comp(),
            final(self).nodes()[idx].val == old(self).nodes()[idx].val,
            ({
                let before = old(self).nodes()[idx].childs;
                let after = final(self).nodes()[idx].childs;
                if before.entries().len() < CHILDS_SIZE {
                    &&& after.entries() == before.entries().push((radix, l))
                    &&& after.overflow() == before.overflow()
                    &&& final(self).tables() == old(self).tables()
                } else if before.overflow() is None {
                    &&& after.entries() == before.entries()
                    &&& after.overflow() is Some
                    &&& !old(self).tables().dom().contains(after.overflow()->0)
                    &&& final(self).tables() == old(self).tables().insert(
                        after.overflow()->0,
                        final(self).tables()[after.overflow()->0],
                    )
                    &&& final(self).tables()[after.overflow()->0].entries() == seq![(radix, l)]
                } else {
                    &&& after.entries() == before.entries()
                    &&& after.overflow() == before.overflow()
                    &&& final(self).tables() == old(self).tables().insert(
                        before.overflow()->0,
                        final(self).tables()[before.overflow()->0],
                    )
                    &&& final(self).tables()[before.overflow()->0].entries()
                        == old(self).tables()[before.overflow()->0].entries().push((radix, l))
                }
            }),
            forall|k: Seq<u8>| #[trigger] final(self).lookup(k) == if k == old(self).paths()[idx].push(radix)
                + compression@ {
                Some(val@)
            } else {
                old(self).lookup(k)
            },
    {
        let ghost o = *self;
        let ghost v = val@;
        let ghost key = self.paths()[idx].push(radix) + compression@;
        let (is_full, huge_child_idx) = {
            let father_node = node_slab_get(&self.map, idx).unwrap();
            (father_node.childs.is_full(), father_node.get_huge_childs_idx())
        };
        proof {
            assert(o.node_ok(o.nodes()[idx]));
            o.lemma_no_node_below_missing_child(idx, radix, compression@);
        }
        let new_leaf = Node::new_leaf(compression, val);
        let l = self.insert(new_leaf);
        self.paths = Ghost(self.paths@.insert(l, key));
        if !is_full {
            let father = node_slab_at_mut(&mut self.map, idx);
            father.childs.push(radix, l);
        } else {
            match huge_child_idx {
                None => {
                    let h = self.intiate_new_huge_child(radix, l);
                    let father = node_slab_at_mut(&mut self.map, idx);
                    father.childs.set_new_childs(h);
                    proof {
                        assert(self.tables()[h].table().dom() =~= set![radix]);
                    }
                },
                Some(h) => {
                    proof {
                        let n = o.nodes()[idx];
                        lemma_room_for_radix(n.childs.entries(), o.tables()[h].entries(), radix);
                    }
                    let huge = table_slab_at_mut(&mut self.child_list, h);
                    huge.push(radix, l);
                },
            }
        }
        proof {
            let n_old = o.nodes()[idx];
            assert(self.nodes().dom() =~= o.nodes().dom().insert(l));
            assert(self.paths().dom() =~= self.nodes().dom());
            // the children of every node, after the change
            assert forall|i: usize, r: u8| self.nodes().dom().contains(i) implies #[trigger] self.child_of(self.nodes()[i], r)
                == if i == idx && r == radix {
                    Some(l)
                } else if i == l {
                    None
                } else {
                    o.child_of(o.nodes()[i], r)
                } by {
                if i != idx && i != l {
                    assert(o.node_ok(o.nodes()[i]));
                    if let Some(hi) = o.nodes()[i].childs.overflow() {
                        if let Some(hx) = n_old.childs.overflow() {
                            assert(o.nodes()[i].childs.overflow() != o.nodes()[idx].childs.overflow());
                        }
                    }
                }
                if i == l {
                    assert(self.nodes()[l].childs.table() =~= Map::<u8, usize>::empty());
                }
            }
            assert forall|i: usize| #[trigger] self.nodes().dom().contains(i) implies self.node_ok(self.nodes()[i]) by {
                if i == l {
                    assert(self.nodes()[l].childs.table() =~= Map::<u8, usize>::empty());
                } else {
                    assert(o.node_ok(o.nodes()[i]));
                    if i != idx {
                        if let Some(hi) = o.nodes()[i].childs.overflow() {
                            if let Some(hx) = n_old.childs.overflow() {
                                assert(o.nodes()[i].childs.overflow() != o.nodes()[idx].childs.overflow());
                            }
                        }
                    }
                }
            }
            assert forall|i: usize| #[trigger] self.nodes().dom().contains(i) && i != self.root() implies Self::canonical(self.nodes()[i]) by {
                if i != l {
                    assert(o.nodes().dom().contains(i));
                }
            }
            assert forall|h: usize| #[trigger] self.tables().dom().contains(h) implies {
                &&& self.tables()[h].wf()
                &&& Self::avoids(self.tables()[h].table(), self.root())
                &&& Self::ascii_radixes(self.tables()[h].table())
            } by {
                if o.tables().dom().contains(h) && self.tables()[h] == o.tables()[h] {
                }
            }
            assert(self.overflow_owned());
            assert forall|i: usize, r: u8| #![trigger self.child_of(self.nodes()[i], r)]
                self.nodes().dom().contains(i) && self.child_of(self.nodes()[i], r) is Some implies {
                    let c = self.child_of(self.nodes()[i], r)->0;
                    &&& self.nodes().dom().contains(c)
                    &&& self.paths()[c] == self.paths()[i].push(r) + self.nodes()[c].comp()
                } by {
                if !(i == idx && r == radix) && i != l {
                    let c = o.child_of(o.nodes()[i], r)->0;
                    assert(c != l);
                }
            }
            assert(self.edges_ok());
            assert forall|i: usize, j: usize| #![trigger self.paths()[i], self.paths()[j]]
                self.nodes().dom().contains(i) && self.nodes().dom().contains(j) && self.paths()[i]
                    == self.paths()[j] implies i == j by {
                if i == l && j != l {
                    assert(o.paths()[j] != key);
                } else if j == l && i != l {
                    assert(o.paths()[i] != key);
                }
            }
            assert forall|c: usize| self.nodes().dom().contains(c) && c != self.root() implies #[trigger] self.has_parent(c) by {
                if c == l {
                    assert(self.child_of(self.nodes()[idx], radix) == Some(l));
                } else {
                    assert(o.has_parent(c));
                    let (p, r) = choose|p: usize, r: u8| o.nodes().dom().contains(p) && #[trigger] o.child_of(o.nodes()[p], r) == Some(c);
                    assert(self.child_of(self.nodes()[p], r) == Some(c));
                }
            }
            assert(self.wf());
            assert forall|k: Seq<u8>| #[trigger] self.lookup(k) == if k == key {
                Some(v)
            } else {
                o.lookup(k)
            } by {
                if k == key {
                    self.lemma_lookup_node(l);
                } else if exists|m: usize| o.nodes().dom().contains(m) && #[trigger] o.paths()[m] == k {
                    let m = choose|m: usize| o.nodes().dom().contains(m) && #[trigger] o.paths()[m] == k;
                    self.lemma_lookup_node(m);
                    o.lemma_lookup_node(m);
                } else {
                    self.lemma_lookup_none(k);
                    o.lemma_lookup_none(k);
                }
            }
        }
        l
    }

    /// From node `p`, reading `radix` and then less than the whole
    /// compression of the child under `radix` ends nowhere.
    pub proof fn lemma_descend_short(&self, p: usize, radix: u8, c: usize, x: Seq<u8>)
        requires
            self.nodes().dom().contains(p),
            self.child_of(self.nodes()[p], radix) == Some(c),
            !is_prefix(self.nodes()[c].comp(), x),
        ensures
            self.descend(p, seq![radix] + x) is None,
    {
        let k = seq![radix] + x;
        assert(k[0] == radix);
        assert(k.subrange(1, k.len() as int) =~= x);
    }

    /// Splits node `idx`, the child of `parent` under `radix`, whose
    /// compression shares only its first `common_len` bytes with `key_rest`:
    /// the node keeps those bytes, a new node below it takes the rest of the
    /// compression with the old value and children, and `val` goes to the
    /// node itself when `key_rest` ends at the split point, else to a new
    /// leaf beside the old content.
    #[verifier::spinoff_prover]
    fn split(
        &mut self,
        parent: Ghost<usize>,
        radix: Ghost<u8>,
        idx: usize,
        common_len: usize,
        key_rest: &[u8],
        val: Vec<u8>,
    )
        requires
            old(self).wf(),
            old(self).nodes().dom().contains(parent@),
            old(self).child_of(old(self).nodes()[parent@], radix@) == Some(idx),
            is_common_len(old(self).nodes()[idx].comp(), key_rest@, common_len as int),
            common_len < old(self).nodes()[idx].comp().len(),
            Self::is_ascii(key_rest@),
        ensures
            final(self).wf(),
            final(self).root() == old(self).root(),
            final(self).tables() == old(self).tables(),
            final(self).nodes().len() <= old(self).nodes().len() + 2,
            forall|k: Seq<u8>| #[trigger] final(self).lookup(k) == if k == old(self).paths()[parent@].push(
                radix@,
            ) + key_rest@ {
                Some(val@)
            } else {
                old(self).lookup(k)
            },
    {
        let ghost o = *self;
        let ghost v = val@;
        let ghost comp = o.nodes()[idx].comp();
        let ghost base = o.paths()[parent@].push(radix@);
        let ghost key = base + key_rest@;
        let ghost cut_key = base + comp.subrange(0, common_len as int);
        proof {
            assert(o.node_ok(o.nodes()[parent@]));
            assert(o.node_ok(o.nodes()[idx]));
            assert(o.paths()[idx] == base + comp);
            assert(idx != o.root()) by {
                if let Some(h) = o.nodes()[parent@].childs.overflow() {
                    assert(o.tables().dom().contains(h));
                }
            }
        }
        let val_on_intermediate = common_len == key_rest.len();
        let old_compression: Vec<u8> = vstd::slice::slice_to_vec(
            comp_as_slice(&node_slab_get(&self.map, idx).unwrap().compression),
        );
        let old_len = old_compression.len();
        let old_radix = old_compression[common_len];
        let old_child_idx = self.insert(Node::empty());
        let node = node_slab_at_mut(&mut self.map, idx);
        let old_val = node.val.take();
        let mut old_childs = Childs::new();
        std::mem::swap(&mut node.childs, &mut old_childs);
        node.compression = comp_from_slice(&old_compression.as_slice()[0..common_len]);
        node.childs.push(old_radix, old_child_idx);
        let old_node = node_slab_at_mut(&mut self.map, old_child_idx);
        *old_node = Node {
            compression: comp_from_slice(&old_compression.as_slice()[common_len + 1..old_len]),
            val: old_val,
            childs: old_childs,
        };
        let ghost mut leaf: Option<usize> = None;
        if val_on_intermediate {
            let node = node_slab_at_mut(&mut self.map, idx);
            node.val = Some(val);
        } else {
            let new_radix = key_rest[common_len];
            let l = self.insert(Node::new_leaf(&key_rest[common_len + 1..key_rest.len()], val));
            let node = node_slab_at_mut(&mut self.map, idx);
            proof {
                assert(node.childs.table().dom() =~= set![old_radix]);
            }
            node.childs.push(new_radix, l);
            proof {
                leaf = Some(l);
            }
        }
        let ghost new_paths = match leaf {
            Some(l) => o.paths().insert(idx, cut_key).insert(old_child_idx, o.paths()[idx]).insert(l, key),
            None => o.paths().insert(idx, cut_key).insert(old_child_idx, o.paths()[idx]),
        };
        self.paths = Ghost(new_paths);
        proof {
            let oc = old_child_idx;
            let n_old = o.nodes()[idx];
            assert(comp.subrange(0, common_len as int) =~= key_rest@.subrange(0, common_len as int));
            assert(comp =~= comp.subrange(0, common_len as int).push(old_radix) + self.nodes()[oc].comp());
            assert(self.nodes()[oc].childs == n_old.childs);
            assert(self.nodes()[oc].val == n_old.val);
            if let Some(l) = leaf {
                assert(key_rest@ =~= key_rest@.subrange(0, common_len as int).push(key_rest@[common_len as int])
                    + self.nodes()[l].comp());
                assert(self.nodes().dom() =~= o.nodes().dom().insert(oc).insert(l));
            } else {
                assert(self.nodes().dom() =~= o.nodes().dom().insert(oc));
            }
            assert(self.paths().dom() =~= self.nodes().dom());
            assert forall|i: usize, r: u8| self.nodes().dom().contains(i) implies #[trigger] self.child_of(self.nodes()[i], r)
                == if i == idx {
                    if r == old_radix {
                        Some(oc)
                    } else if leaf is Some && r == key_rest@[common_len as int] {
                        Some(leaf->0)
                    } else {
                        None
                    }
                } else if i == oc {
                    o.child_of(n_old, r)
                } else if leaf == Some(i) {
                    None
                } else {
                    o.child_of(o.nodes()[i], r)
                } by {
                if leaf == Some(i) {
                    assert(self.nodes()[i].childs.table() =~= Map::<u8, usize>::empty());
                }
            }
            // keys of the old children of the split node, and of its parents
            assert forall|i: usize, r: u8| #![trigger o.child_of(o.nodes()[i], r)]
                o.nodes().dom().contains(i) && o.child_of(o.nodes()[i], r) == Some(idx) implies
                o.paths()[i].push(r) == base by {
                assert(o.paths()[idx] == o.paths()[i].push(r) + comp);
                assert(base =~= (base + comp).subrange(0, base.len() as int));
                assert(o.paths()[i].push(r) =~= (o.paths()[i].push(r) + comp).subrange(0, base.len() as int));
            }
            assert forall|r: u8| #[trigger] o.child_of(n_old, r) is Some implies o.child_of(n_old, r)->0 != idx
                && o.child_of(n_old, r)->0 != oc && leaf != Some(o.child_of(n_old, r)->0) by {
                assert(o.child_of(o.nodes()[idx], r) is Some);
            }
            assert forall|i: usize| #[trigger] self.nodes().dom().contains(i) implies self.node_ok(self.nodes()[i]) by {
                if i == idx {
                    assert(o.node_ok(n_old));
                    assert(Self::is_ascii(self.nodes()[idx].comp()));
                } else if i == oc {
                    assert(o.node_ok(n_old));
                } else if leaf == Some(i) {
                    assert(self.nodes()[i].childs.table() =~= Map::<u8, usize>::empty());
                } else {
                    assert(o.node_ok(o.nodes()[i]));
                }
            }
            assert forall|i: usize| #[trigger] self.nodes().dom().contains(i) && i != self.root() implies Self::canonical(self.nodes()[i]) by {
                if i == oc {
                    assert(o.nodes().dom().contains(idx));
                } else if i != idx && leaf != Some(i) {
                    assert(o.nodes().dom().contains(i));
                }
            }
            assert forall|i: usize, j: usize|
                #![trigger self.nodes()[i].childs.overflow(), self.nodes()[j].childs.overflow()]
                self.nodes().dom().contains(i) && self.nodes().dom().contains(j) && i != j
                    && self.nodes()[i].childs.overflow() is Some implies self.nodes()[i].childs.overflow()
                    != self.nodes()[j].childs.overflow() by {
                let oi = if i == oc { idx } else { i };
                let oj = if j == oc { idx } else { j };
                if self.nodes()[j].childs.overflow() is Some {
                    assert(o.nodes()[oi].childs.overflow() == self.nodes()[i].childs.overflow());
                    assert(o.nodes()[oj].childs.overflow() == self.nodes()[j].childs.overflow());
                }
            }
            assert forall|i: usize, r: u8| #![trigger self.child_of(self.nodes()[i], r)]
                self.nodes().dom().contains(i) && self.child_of(self.nodes()[i], r) is Some implies {
                    let c = self.child_of(self.nodes()[i], r)->0;
                    &&& self.nodes().dom().contains(c)
                    &&& self.paths()[c] == self.paths()[i].push(r) + self.nodes()[c].comp()
                } by {
                if i == idx {
                } else if i == oc {
                    let c = o.child_of(n_old, r)->0;
                    assert(o.child_of(o.nodes()[idx], r) is Some);
                } else if leaf != Some(i) {
                    let c = o.child_of(o.nodes()[i], r)->0;
                    if c == idx {
                        assert(o.paths()[i].push(r) == base);
                    }
                }
            }
            assert(self.edges_ok());
            // the new keys are not the key of any old node
            o.lemma_reach(parent@);
            o.lemma_descend_short(parent@, radix@, idx, comp.subrange(0, common_len as int));
            o.lemma_descend_append(o.root(), o.paths()[parent@], seq![radix@] + comp.subrange(0, common_len as int));
            assert(o.paths()[parent@] + (seq![radix@] + comp.subrange(0, common_len as int)) =~= cut_key);
            o.lemma_descend_root(cut_key);
            if leaf is Some {
                assert(!is_prefix(comp, key_rest@)) by {
                    if is_prefix(comp, key_rest@) {
                        assert(key_rest@.subrange(0, comp.len() as int)[common_len as int] == comp[common_len as int]);
                    }
                }
                o.lemma_descend_short(parent@, radix@, idx, key_rest@);
                o.lemma_descend_append(o.root(), o.paths()[parent@], seq![radix@] + key_rest@);
                assert(o.paths()[parent@] + (seq![radix@] + key_rest@) =~= key);
                o.lemma_descend_root(key);
            }
            assert forall|m: usize| o.nodes().dom().contains(m) implies #[trigger] o.paths()[m] != cut_key by {
                o.lemma_reach(m);
            }
            assert forall|m: usize| o.nodes().dom().contains(m) && leaf is Some implies #[trigger] o.paths()[m] != key by {
                o.lemma_reach(m);
            }
            assert(key != o.paths()[idx]) by {
                if key == o.paths()[idx] {
                    assert(key_rest@ =~= key.subrange(base.len() as int, key.len() as int));
                    assert(comp =~= (base + comp).subrange(base.len() as int, key.len() as int));
                }
            }
            assert forall|i: usize, j: usize| #![trigger self.paths()[i], self.paths()[j]]
                self.nodes().dom().contains(i) && self.nodes().dom().contains(j) && self.paths()[i]
                    == self.paths()[j] implies i == j by {
                let pi = self.paths()[i];
                if i != j {
                    if i == idx || j == idx {
                        let other = if i == idx { j } else { i };
                        if other == oc {
                            assert(cut_key.len() < o.paths()[idx].len());
                        } else if leaf == Some(other) {
                            assert(cut_key.len() < key.len());
                        }
                    } else if i == oc || j == oc {
                        let other = if i == oc { j } else { i };
                        if leaf != Some(other) {
                            assert(o.paths()[other] == o.paths()[idx]);
                        }
                    }
                }
            }
            assert forall|c: usize| self.nodes().dom().contains(c) && c != self.root() implies #[trigger] self.has_parent(c) by {
                if c == oc {
                    assert(self.child_of(self.nodes()[idx], old_radix) == Some(oc));
                } else if leaf == Some(c) {
                    assert(self.child_of(self.nodes()[idx], key_rest@[common_len as int]) == Some(c));
                } else {
                    assert(o.has_parent(c));
                    let (p, r) = choose|p: usize, r: u8| o.nodes().dom().contains(p) && #[trigger] o.child_of(o.nodes()[p], r) == Some(c);
                    if p == idx {
                        assert(self.child_of(self.nodes()[oc], r) == Some(c));
                    } else {
                        assert(self.child_of(self.nodes()[p], r) == Some(c));
                    }
                }
            }
            assert(self.wf());
            if leaf is None {
                assert(key_rest@ =~= key_rest@.subrange(0, common_len as int));
                assert(key =~= cut_key);
            }
            assert forall|k: Seq<u8>| #[trigger] self.lookup(k) == if k == key {
                Some(v)
            } else {
                o.lookup(k)
            } by {
                if k == key {
                    if leaf is Some {
                        self.lemma_lookup_node(leaf->0);
                    } else {
                        assert(key_rest@ =~= key_rest@.subrange(0, common_len as int));
                        assert(key_rest@ =~= comp.subrange(0, common_len as int));
                        assert(key == cut_key);
                        self.lemma_lookup_node(idx);
                        assert(self.lookup(k) == Some(v));
                    }
                } else if k == o.paths()[idx] {
                    self.lemma_lookup_node(oc);
                    o.lemma_lookup_node(idx);
                    assert(self.lookup(k) == o.lookup(k));
                } else if k == cut_key {
                    assert(leaf is Some);
                    assert(self.nodes()[idx].val is None);
                    assert(self.paths()[idx] == cut_key);
                    self.lemma_lookup_node(idx);
                    assert(self.lookup(k) is None);
                    o.lemma_lookup_none(k);
                    assert(o.lookup(k) is None);
                } else if exists|m: usize| o.nodes().dom().contains(m) && #[trigger] o.paths()[m] == k {
                    let m = choose|m: usize| o.nodes().dom().contains(m) && #[trigger] o.paths()[m] == k;
                    assert(m != idx);
                    assert(self.paths()[m] == k);
                    assert(self.nodes()[m] == o.nodes()[m]);
                    self.lemma_lookup_node(m);
                    o.lemma_lookup_node(m);
                    assert(self.lookup(k) == o.lookup(k));
                } else {
                    assert forall|n: usize| self.nodes().dom().contains(n) implies #[trigger] self.paths()[n] != k by {
                        if n != idx && n != oc && leaf != Some(n) {
                            assert(o.nodes().dom().contains(n));
                        }
                    }
                    self.lemma_lookup_none(k);
                    o.lemma_lookup_none(k);
                }
            }
        }
    }

    /// Stores `val` under `key`, replacing the value stored there before.
    #[verifier::spinoff_prover]
    pub fn set(&mut self, key: &[u8], val: Vec<u8>)
        requires
            old(self).wf(),
            Self::is_ascii(key@),
        ensures
            final(self).wf(),
            forall|k: Seq<u8>| #[trigger] final(self).lookup(k) == if k == key@ {
                Some(val@)
            } else {
                old(self).lookup(k)
            },
            old(self).lookup(key@) is Some ==> final(self).node_count() == old(self).node_count(),
            old(self).lookup(key@) is Some ==> final(self).tables() == old(self).tables(),
            final(self).root() == old(self).root(),
            final(self).node_count() <= old(self).node_count() + 2,
            final(self).tables().len() <= old(self).tables().len() + 1,
            forall|n: usize| #[trigger] final(self).nodes().dom().contains(n) && n != final(self).root()
                ==> Self::canonical(final(self).nodes()[n]),
    {
        let ghost o = *self;
        let key_len = key.len();
        if key_len == 0 {
            let root = self.root_idx;
            self.set_node_val(root, val);
            proof {
                assert(key@ =~= Seq::<u8>::empty());
            }
            return ;
        }
        let mut idx: usize = self.root_idx;
        let mut cursor: usize = 0;
        proof {
            assert(key@.subrange(0, 0) =~= Seq::<u8>::empty());
        }
        loop
            invariant
                *self == o,
                o == *old(self),
                self.wf(),
                Self::is_ascii(key@),
                key_len == key@.len(),
                cursor < key_len,
                self.nodes().dom().contains(idx),
                self.paths()[idx] == key@.subrange(0, cursor as int),
            decreases key_len - cursor,
        {
            let radix = key[cursor];
            let ghost rest = key@.subrange(cursor + 1, key_len as int);
            proof {
                assert(key@ =~= self.paths()[idx].push(radix) + rest);
                assert(self.paths()[idx] + (seq![radix] + rest) =~= key@);
                self.lemma_reach(idx);
                self.lemma_descend_append(self.root(), self.paths()[idx], seq![radix] + rest);
            }
            let child_idx = match self.find(idx, radix) {
                Some(c) => c,
                None => {
                    let tail = &key[cursor + 1..key_len];
                    proof {
                        let k2 = seq![radix] + rest;
                        assert(k2[0] == radix);
                        assert(tail@ == rest);
                        assert(self.descend(idx, k2) is None);
                        assert(o.lookup(key@) is None);
                        assert forall|i: int| 0 <= i < rest.len() implies rest[i] < 128 by {
                            assert(rest[i] == key@[cursor + 1 + i]);
                        }
                    }
                    self.create_node_with_val(idx, radix, val, tail);
                    return ;
                },
            };
            let comparison = node_slab_get(&self.map, child_idx).unwrap().compare_compression_key(
                &key[cursor + 1..key_len],
            );
            let ghost comp = self.nodes()[child_idx].comp();
            proof {
                assert(self.paths()[child_idx] == self.paths()[idx].push(radix) + comp);
            }
            match comparison {
                CompResult::Final => {
                    proof {
                        self.lemma_descend_child(idx, radix, child_idx);
                    }
                    self.set_node_val(child_idx, val);
                    return ;
                },
                CompResult::Path => {
                    cursor = cursor + 1 + comp_as_slice(&node_slab_get(&self.map, child_idx).unwrap().compression).len();
                    idx = child_idx;
                    proof {
                        assert(self.paths()[idx] =~= key@.subrange(0, cursor as int));
                    }
                },
                CompResult::Partial(common_len) => {
                    proof {
                        if common_len as int == comp.len() {
                            assert(comp.subrange(0, common_len as int) =~= comp);
                            assert(is_prefix(comp, rest));
                            if comp.len() == rest.len() {
                                assert(rest.subrange(0, comp.len() as int) =~= rest);
                            }
                        }
                        assert(!is_prefix(comp, rest)) by {
                            if is_prefix(comp, rest) && comp.len() == rest.len() {
                                assert(rest.subrange(0, comp.len() as int) =~= rest);
                            }
                        }
                        self.lemma_descend_short(idx, radix, child_idx, rest);
                        assert forall|i: int| 0 <= i < rest.len() implies rest[i] < 128 by {
                            assert(rest[i] == key@[cursor + 1 + i]);
                        }
                    }
                    self.split(Ghost(idx), Ghost(radix), child_idx, common_len, &key[cursor + 1..key_len], val);
                    return ;
                },
            }
        }
    }

    /// Absorbs the single child of a value-less node that has exactly one
    /// child and no overflow region: the node's compression grows by the
    /// child's radix and compression, and it takes over the child's value and
    /// children. The root is never recompressed.
    #[verifier::spinoff_prover]
    fn try_recompress(&mut self, node_idx: usize)
        requires
            old(self).wf_except(node_idx),
            old(self).nodes().dom().contains(node_idx),
            ({
                let n = old(self).nodes()[node_idx];
                n.val is Some || n.childs.entries().len() >= 1 || n.childs.overflow() is Some
            }),
        ensures
            final(self).wf(),
            final(self).root() == old(self).root(),
            forall|k: Seq<u8>| #[trigger] final(self).lookup(k) == old(self).lookup(k),
            final(self).tables() == old(self).tables(),
            final(self).nodes().len() <= old(self).nodes().len(),
            final(self).nodes().len() + 1 >= old(self).nodes().len(),
    {
        let ghost o = *self;
        if node_idx == self.root_idx {
            return ;
        }
        let (child_radix, c) = {
            let node = node_slab_get(&self.map, node_idx).unwrap();
            if node.val.is_some() {
                return ;
            }
            match node.childs.get_single_child() {
                Some(rc) => rc,
                None => return ,
            }
        };
        let ghost n_old = o.nodes()[node_idx];
        proof {
            lemma_entry_in_map(n_old.childs.entries(), 0);
            assert(o.child_of(n_old, child_radix) == Some(c));
            assert(o.node_ok(n_old));
            assert(o.paths()[c] == o.paths()[node_idx].push(child_radix) + o.nodes()[c].comp());
            assert(c != node_idx) by {
                if c == node_idx {
                    assert(o.paths()[c].len() > o.paths()[node_idx].len());
                }
            }
            assert(c != o.root());
            assert(Self::canonical(o.nodes()[c]));
            assert(o.node_ok(o.nodes()[c]));
        }
        let ghost c_old = o.nodes()[c];
        let child = node_slab_remove(&mut self.map, c);
        let mut merged: Vec<u8> = vstd::slice::slice_to_vec(
            comp_as_slice(&node_slab_get(&self.map, node_idx).unwrap().compression),
        );
        merged.push(child_radix);
        let child_comp = comp_as_slice(&child.compression);
        let mut k: usize = 0;
        while k < child_comp.len()
            invariant
                k <= child_comp@.len(),
                merged@ == n_old.comp().push(child_radix) + child_comp@.subrange(0, k as int),
            decreases child_comp@.len() - k,
        {
            merged.push(child_comp[k]);
            k = k + 1;
            proof {
                assert(merged@ =~= n_old.comp().push(child_radix) + child_comp@.subrange(0, k as int));
            }
        }
        proof {
            assert(child_comp@.subrange(0, child_comp@.len() as int) =~= child_comp@);
        }
        let node = node_slab_at_mut(&mut self.map, node_idx);
        node.compression = comp_from_slice(merged.as_slice());
        node.val = child.val;
        node.childs = child.childs;
        self.paths = Ghost(o.paths().remove(c).insert(node_idx, o.paths()[c]));
        proof {
            let pn = o.paths()[node_idx];
            let pc = o.paths()[c];
            assert(self.nodes().dom() =~= o.nodes().dom().remove(c));
            assert(self.paths().dom() =~= self.nodes().dom());
            assert(self.nodes()[node_idx].childs == c_old.childs);
            assert(self.nodes()[node_idx].val == c_old.val);
            assert(self.nodes()[node_idx].comp() == n_old.comp().push(child_radix) + c_old.comp());
            // the only parent of the absorbed child was the node
            assert forall|i: usize, r: u8| #![trigger o.child_of(o.nodes()[i], r)]
                o.nodes().dom().contains(i) && o.child_of(o.nodes()[i], r) == Some(c) implies i == node_idx by {
                assert(pc == o.paths()[i].push(r) + c_old.comp());
                assert(o.paths()[i].push(r) =~= pc.subrange(0, pc.len() - c_old.comp().len()));
                assert(pn.push(child_radix) =~= pc.subrange(0, pc.len() - c_old.comp().len()));
                assert(o.paths()[i] =~= o.paths()[i].push(r).drop_last());
                assert(pn =~= pn.push(child_radix).drop_last());
            }
            assert forall|r: u8| #[trigger] o.child_of(c_old, r) is Some implies o.child_of(c_old, r)->0 != c
                && o.child_of(c_old, r)->0 != node_idx by {
                assert(o.child_of(o.nodes()[c], r) is Some);
                let x = o.child_of(c_old, r)->0;
                assert(o.paths()[x].len() > pc.len());
            }
            assert forall|i: usize, r: u8| self.nodes().dom().contains(i) implies #[trigger] self.child_of(self.nodes()[i], r)
                == if i == node_idx {
                    o.child_of(c_old, r)
                } else {
                    o.child_of(o.nodes()[i], r)
                } by {}
            assert forall|i: usize| #[trigger] self.nodes().dom().contains(i) implies self.node_ok(self.nodes()[i]) by {
                if i == node_idx {
                    assert(Self::is_ascii(self.nodes()[i].comp()));
                } else {
                    assert(o.node_ok(o.nodes()[i]));
                }
            }
            assert forall|i: usize| #[trigger] self.nodes().dom().contains(i) && i != self.root() implies Self::canonical(self.nodes()[i]) by {
                if i != node_idx {
                    assert(o.nodes().dom().contains(i));
                }
            }
            assert forall|i: usize, j: usize|
                #![trigger self.nodes()[i].childs.overflow(), self.nodes()[j].childs.overflow()]
                self.nodes().dom().contains(i) && self.nodes().dom().contains(j) && i != j
                    && self.nodes()[i].childs.overflow() is Some implies self.nodes()[i].childs.overflow()
                    != self.nodes()[j].childs.overflow() by {
                let oi = if i == node_idx { c } else { i };
                let oj = if j == node_idx { c } else { j };
                assert(o.nodes()[oi].childs.overflow() == self.nodes()[i].childs.overflow());
                assert(o.nodes()[oj].childs.overflow() == self.nodes()[j].childs.overflow());
            }
            assert forall|i: usize, r: u8| #![trigger self.child_of(self.nodes()[i], r)]
                self.nodes().dom().contains(i) && self.child_of(self.nodes()[i], r) is Some implies {
                    let x = self.child_of(self.nodes()[i], r)->0;
                    &&& self.nodes().dom().contains(x)
                    &&& self.paths()[x] == self.paths()[i].push(r) + self.nodes()[x].comp()
                } by {
                if i == node_idx {
                    assert(o.child_of(o.nodes()[c], r) is Some);
                } else {
                    let x = o.child_of(o.nodes()[i], r)->0;
                    if x == node_idx {
                        assert(pn == o.paths()[i].push(r) + n_old.comp());
                        assert(pc =~= o.paths()[i].push(r) + (n_old.comp().push(child_radix) + c_old.comp()));
                    }
                }
            }
            assert(self.edges_ok());
            assert forall|i: usize, j: usize| #![trigger self.paths()[i], self.paths()[j]]
                self.nodes().dom().contains(i) && self.nodes().dom().contains(j) && self.paths()[i]
                    == self.paths()[j] implies i == j by {
                let oi = if i == node_idx { c } else { i };
                let oj = if j == node_idx { c } else { j };
                assert(o.paths()[oi] == self.paths()[i]);
                assert(o.paths()[oj] == self.paths()[j]);
            }
            assert forall|x: usize| self.nodes().dom().contains(x) && x != self.root() implies #[trigger] self.has_parent(x) by {
                assert(o.has_parent(x));
                let (p, r) = choose|p: usize, r: u8| o.nodes().dom().contains(p) && #[trigger] o.child_of(o.nodes()[p], r) == Some(x);
                if p == c {
                    assert(self.child_of(self.nodes()[node_idx], r) == Some(x));
                } else {
                    assert(self.child_of(self.nodes()[p], r) == Some(x));
                }
            }
            assert(self.wf());
            assert forall|k: Seq<u8>| #[trigger] self.lookup(k) == o.lookup(k) by {
                if k == pc {
                    self.lemma_lookup_node(node_idx);
                    o.lemma_lookup_node(c);
                } else if k == pn {
                    o.lemma_lookup_node(node_idx);
                    assert forall|m: usize| self.nodes().dom().contains(m) implies #[trigger] self.paths()[m] != k by {
                        if m != node_idx {
                            assert(o.paths()[m] == self.paths()[m]);
                        }
                    }
                    self.lemma_lookup_none(k);
                } else if exists|m: usize| o.nodes().dom().contains(m) && #[trigger] o.paths()[m] == k {
                    let m = choose|m: usize| o.nodes().dom().contains(m) && #[trigger] o.paths()[m] == k;
                    assert(m != node_idx && m != c);
                    self.lemma_lookup_node(m);
                    o.lemma_lookup_node(m);
                } else {
                    assert forall|m: usize| self.nodes().dom().contains(m) implies #[trigger] self.paths()[m] != k by {
                        if m != node_idx {
                            assert(o.paths()[m] == self.paths()[m]);
                        }
                    }
                    self.lemma_lookup_none(k);
                    o.lemma_lookup_none(k);
                }
            }
        }
    }

    /// Detaches the child under `radix` from node `parent`, looking in the
    /// primary region first and then in the overflow region.
    fn remove_child(&mut self, parent: usize, radix: u8)
        requires
            old(self).wf_base(),
            old(self).nodes().dom().contains(parent),
        ensures
            final(self).wf_base(),
            final(self).root() == old(self).root(),
            final(self).paths() == old(self).paths(),
            final(self).nodes().dom() == old(self).nodes().dom(),
            final(self).tables().dom() == old(self).tables().dom(),
            forall|i: usize| i != parent ==> #[trigger] final(self).nodes()[i] == old(self).nodes()[i],
            forall|i: usize, r: u8| #![trigger final(self).child_of(final(self).nodes()[i], r)]
                final(self).nodes().dom().contains(i) ==> final(self).child_of(final(self).nodes()[i], r)
                    == if i == parent && r == radix {
                    None
                } else {
                    old(self).child_of(old(self).nodes()[i], r)
                },
            final(self).nodes()[parent].val == old(self).nodes()[parent].val,
            final(self).nodes()[parent].childs.overflow() == old(self).nodes()[parent].childs.overflow(),
            final(self).nodes()[parent].childs.entries().len() + 1 >= old(self).nodes()[parent].childs.entries().len(),
    {
        let ghost o = *self;
        proof {
            assert(o.node_ok(o.nodes()[parent]));
        }
        let p = node_slab_at_mut(&mut self.map, parent);
        let removed = p.childs.remove(radix);
        let next = p.childs.get_next_idx();
        if removed.is_none() {
            if let Some(h) = next {
                let huge = table_slab_at_mut(&mut self.child_list, h);
                let _ = huge.remove(radix);
            }
        }
        proof {
            let n_old = o.nodes()[parent];
            assert forall|i: usize, r: u8| self.nodes().dom().contains(i) implies #[trigger] self.child_of(self.nodes()[i], r)
                == if i == parent && r == radix {
                    None
                } else {
                    o.child_of(o.nodes()[i], r)
                } by {
                if i != parent {
                    if let Some(hi) = o.nodes()[i].childs.overflow() {
                        if let Some(hp) = n_old.childs.overflow() {
                            assert(o.nodes()[i].childs.overflow() != o.nodes()[parent].childs.overflow());
                        }
                    }
                }
            }
            assert forall|i: usize| #[trigger] self.nodes().dom().contains(i) implies self.node_ok(self.nodes()[i]) by {
                assert(o.node_ok(o.nodes()[i]));
                if i != parent {
                    if let Some(hi) = o.nodes()[i].childs.overflow() {
                        if let Some(hp) = n_old.childs.overflow() {
                            assert(o.nodes()[i].childs.overflow() != o.nodes()[parent].childs.overflow());
                        }
                    }
                }
            }
            assert(self.overflow_owned());
            assert forall|i: usize, r: u8| #![trigger self.child_of(self.nodes()[i], r)]
                self.nodes().dom().contains(i) && self.child_of(self.nodes()[i], r) is Some implies {
                    let x = self.child_of(self.nodes()[i], r)->0;
                    &&& self.nodes().dom().contains(x)
                    &&& self.paths()[x] == self.paths()[i].push(r) + self.nodes()[x].comp()
                } by {
                let x = o.child_of(o.nodes()[i], r)->0;
                assert(o.nodes()[x].comp() == self.nodes()[x].comp());
            }
            assert forall|h: usize| #[trigger] self.tables().dom().contains(h) implies {
                &&& self.tables()[h].wf()
                &&& Self::avoids(self.tables()[h].table(), self.root())
                &&& Self::ascii_radixes(self.tables()[h].table())
            } by {
                assert(o.tables().dom().contains(h));
            }
            assert forall|i: usize, j: usize| #![trigger self.paths()[i], self.paths()[j]]
                self.nodes().dom().contains(i) && self.nodes().dom().contains(j) && self.paths()[i]
                    == self.paths()[j] implies i == j by {
                assert(o.paths()[i] == self.paths()[i]);
            }
            assert(self.nodes()[self.root()].comp() == o.nodes()[o.root()].comp());
            assert(self.nodes().dom().finite());
            assert(self.tables().dom().finite());
            assert(self.paths().dom() == self.nodes().dom());
            assert(self.overflow_owned());
            assert(self.edges_ok());
            assert(self.paths_injective());
            assert(self.wf_base());
        }
    }

    /// Removes the value stored under `key` and returns it; the tree is
    /// recompressed around the place it leaves.
    #[verifier::spinoff_prover]
    pub fn del(&mut self, key: &[u8]) -> (r: Option<Vec<u8>>)
        requires
            old(self).wf(),
        ensures
            final(self).wf(),
            match r {
                Some(v) => old(self).lookup(key@) == Some(v@),
                None => old(self).lookup(key@) is None,
            },
            forall|k: Seq<u8>| #[trigger] final(self).lookup(k) == if k == key@ {
                None
            } else {
                old(self).lookup(k)
            },
            old(self).lookup(key@) is None ==> final(self).node_count() == old(self).node_count(),
            old(self).lookup(key@) is None ==> *final(self) == *old(self),
            old(self).lookup(key@) is Some ==> final(self).node_count() <= old(self).node_count()
                && final(self).node_count() + 2 >= old(self).node_count(),
            final(self).root() == old(self).root(),
            final(self).tables().dom() == old(self).tables().dom(),
    {
        let ghost o = *self;
        let key_len = key.len();
        if key_len == 0 {
            proof {
                assert(key@ =~= Seq::<u8>::empty());
                o.lemma_lookup_node(o.root());
            }
            if node_slab_get(&self.map, self.root_idx).unwrap().val.is_none() {
                return None;
            }
            let root = node_slab_at_mut(&mut self.map, self.root_idx);
            let old_val = root.val.take();
            proof {
                assert(key@ =~= Seq::<u8>::empty());
                assert(self.nodes().dom() =~= o.nodes().dom());
                assert forall|i: usize| #[trigger] self.nodes().dom().contains(i) implies self.node_ok(self.nodes()[i]) by {
                    assert(o.node_ok(o.nodes()[i]));
                }
                assert forall|i: usize, r: u8| self.nodes().dom().contains(i) implies #[trigger] self.child_of(self.nodes()[i], r)
                    == o.child_of(o.nodes()[i], r) by {}
                assert forall|c: usize| self.nodes().dom().contains(c) && c != self.root() implies #[trigger] self.has_parent(c) by {
                    assert(o.has_parent(c));
                    let (p, r) = choose|p: usize, r: u8| o.nodes().dom().contains(p) && #[trigger] o.child_of(o.nodes()[p], r) == Some(c);
                    assert(self.child_of(self.nodes()[p], r) == Some(c));
                }
                assert(self.overflow_owned());
                assert(self.edges_ok());
                assert(self.paths_injective());
                assert(self.wf());
                o.lemma_lookup_node(o.root());
                assert forall|k: Seq<u8>| #[trigger] self.lookup(k) == if k == key@ {
                    None
                } else {
                    o.lookup(k)
                } by {
                    if k == key@ {
                        self.lemma_lookup_node(self.root());
                    } else if exists|m: usize| o.nodes().dom().contains(m) && #[trigger] o.paths()[m] == k {
                        let m = choose|m: usize| o.nodes().dom().contains(m) && #[trigger] o.paths()[m] == k;
                        self.lemma_lookup_node(m);
                        o.lemma_lookup_node(m);
                    } else {
                        self.lemma_lookup_none(k);
                        o.lemma_lookup_none(k);
                    }
                }
            }
            return old_val;
        }
        let mut idx: usize = self.root_idx;
        let mut cursor: usize = 0;
        proof {
            assert(key@.subrange(0, 0) =~= Seq::<u8>::empty());
        }
        let mut parent_idx: usize = self.root_idx;
        let mut parent_radix: u8 = 0;
        let mut target_idx: usize = self.root_idx;
        loop
            invariant_except_break
                cursor < key_len,
                self.paths()[idx] == key@.subrange(0, cursor as int),
                self.nodes().dom().contains(idx),
            invariant
                *self == o,
                o == *old(self),
                self.wf(),
                key_len == key@.len(),
            ensures
                self.nodes().dom().contains(parent_idx),
                self.child_of(self.nodes()[parent_idx], parent_radix) == Some(target_idx),
                self.nodes().dom().contains(target_idx),
                self.paths()[target_idx] == key@,
            decreases key_len - cursor,
        {
            let radix = key[cursor];
            let ghost rest = key@.subrange(cursor + 1, key_len as int);
            proof {
                assert(key@ =~= self.paths()[idx].push(radix) + rest);
                assert(self.paths()[idx] + (seq![radix] + rest) =~= key@);
                self.lemma_reach(idx);
                self.lemma_descend_append(self.root(), self.paths()[idx], seq![radix] + rest);
                let k2 = seq![radix] + rest;
                assert(k2[0] == radix);
            }
            let child_idx = match self.find(idx, radix) {
                Some(c) => c,
                None => return None,
            };
            let comparison = node_slab_get(&self.map, child_idx).unwrap().compare_compression_key(
                &key[cursor + 1..key_len],
            );
            let ghost comp = self.nodes()[child_idx].comp();
            proof {
                assert(self.paths()[child_idx] == self.paths()[idx].push(radix) + comp);
            }
            match comparison {
                CompResult::Final => {
                    proof {
                        assert(self.paths()[child_idx] =~= key@);
                    }
                    parent_idx = idx;
                    parent_radix = radix;
                    target_idx = child_idx;
                    break ;
                },
                CompResult::Path => {
                    cursor = cursor + 1 + comp_as_slice(&node_slab_get(&self.map, child_idx).unwrap().compression).len();
                    idx = child_idx;
                    proof {
                        assert(self.paths()[idx] =~= key@.subrange(0, cursor as int));
                    }
                },
                CompResult::Partial(_) => {
                    proof {
                        assert(!is_prefix(comp, rest)) by {
                            if is_prefix(comp, rest) && comp.len() == rest.len() {
                                assert(rest.subrange(0, comp.len() as int) =~= rest);
                            }
                        }
                        self.lemma_descend_short(idx, radix, child_idx, rest);
                    }
                    return None;
                },
            }
        }
        proof {
            o.lemma_lookup_node(target_idx);
            assert(o.node_ok(o.nodes()[target_idx]));
        }
        let (has_children, has_val) = {
            let node = node_slab_get(&self.map, target_idx).unwrap();
            (!node.childs.is_empty() || node.childs.get_next_idx().is_some(), node.val.is_some())
        };
        if !has_val {
            return None;
        }
        if has_children {
            let target = node_slab_at_mut(&mut self.map, target_idx);
            let old_val = target.val.take();
            proof {
                assert(self.nodes().dom() =~= o.nodes().dom());
                assert forall|i: usize| #[trigger] self.nodes().dom().contains(i) implies self.node_ok(self.nodes()[i]) by {
                    assert(o.node_ok(o.nodes()[i]));
                }
                assert forall|i: usize, r: u8| self.nodes().dom().contains(i) implies #[trigger] self.child_of(self.nodes()[i], r)
                    == o.child_of(o.nodes()[i], r) by {}
                assert forall|c: usize| self.nodes().dom().contains(c) && c != self.root() implies #[trigger] self.has_parent(c) by {
                    assert(o.has_parent(c));
                    let (p, r) = choose|p: usize, r: u8| o.nodes().dom().contains(p) && #[trigger] o.child_of(o.nodes()[p], r) == Some(c);
                    assert(self.child_of(self.nodes()[p], r) == Some(c));
                }
                assert(self.overflow_owned());
                assert(self.edges_ok());
                assert(self.paths_injective());
                assert(self.wf_except(target_idx));
            }
            let ghost mid = *self;
            self.try_recompress(target_idx);
            proof {
                assert forall|k: Seq<u8>| #[trigger] mid.lookup(k) == if k == key@ {
                    None
                } else {
                    o.lookup(k)
                } by {
                    if k == key@ {
                        mid.lemma_lookup_node(target_idx);
                    } else if exists|m: usize| o.nodes().dom().contains(m) && #[trigger] o.paths()[m] == k {
                        let m = choose|m: usize| o.nodes().dom().contains(m) && #[trigger] o.paths()[m] == k;
                        mid.lemma_lookup_node(m);
                        o.lemma_lookup_node(m);
                    } else {
                        mid.lemma_lookup_none(k);
                        o.lemma_lookup_none(k);
                    }
                }
            }
            old_val
        } else {
            proof {
                let t = o.nodes()[target_idx];
                assert(t.childs.table() =~= Map::<u8, usize>::empty());
                assert forall|r: u8| #[trigger] o.child_of(t, r) is None by {}
                assert(o.node_ok(o.nodes()[parent_idx]));
                // the parent is the only node that leads to the target
                assert forall|i: usize, r: u8| #![trigger o.child_of(o.nodes()[i], r)]
                    o.nodes().dom().contains(i) && o.child_of(o.nodes()[i], r) == Some(target_idx) implies
                    i == parent_idx && r == parent_radix by {
                    let pt = o.paths()[target_idx];
                    let tc = t.comp();
                    assert(o.child_of(o.nodes()[parent_idx], parent_radix) == Some(target_idx));
                    assert(pt == o.paths()[parent_idx].push(parent_radix) + tc);
                    assert(pt == o.paths()[i].push(r) + tc);
                    assert(o.paths()[i].push(r) =~= pt.subrange(0, pt.len() - tc.len()));
                    assert(o.paths()[parent_idx].push(parent_radix) =~= pt.subrange(0, pt.len() - tc.len()));
                    assert(o.paths()[i] =~= o.paths()[i].push(r).drop_last());
                    assert(o.paths()[parent_idx] =~= o.paths()[parent_idx].push(parent_radix).drop_last());
                    assert(o.paths()[i].push(r).last() == r);
                    assert(o.paths()[parent_idx].push(parent_radix).last() == parent_radix);
                }
            }
            self.remove_child(parent_idx, parent_radix);
            let ghost mid = *self;
            let node = node_slab_remove(&mut self.map, target_idx);
            self.paths = Ghost(self.paths@.remove(target_idx));
            proof {
                assert forall|i: usize, r: u8| self.nodes().dom().contains(i) implies #[trigger] self.child_of(self.nodes()[i], r)
                    == mid.child_of(mid.nodes()[i], r) by {}
                assert(self.nodes().dom() =~= o.nodes().dom().remove(target_idx));
                assert(self.paths().dom() =~= self.nodes().dom());
                assert forall|i: usize, r: u8| self.nodes().dom().contains(i) implies #[trigger] self.child_of(self.nodes()[i], r)
                    == if i == parent_idx && r == parent_radix {
                        None
                    } else {
                        o.child_of(o.nodes()[i], r)
                    } by {}
                assert forall|i: usize| #[trigger] self.nodes().dom().contains(i) implies self.node_ok(self.nodes()[i]) by {}
                assert forall|i: usize, r: u8| #![trigger self.child_of(self.nodes()[i], r)]
                    self.nodes().dom().contains(i) && self.child_of(self.nodes()[i], r) is Some implies {
                        let x = self.child_of(self.nodes()[i], r)->0;
                        &&& self.nodes().dom().contains(x)
                        &&& self.paths()[x] == self.paths()[i].push(r) + self.nodes()[x].comp()
                    } by {
                    assert(o.child_of(o.nodes()[i], r) is Some);
                }
                assert(self.edges_ok());
                assert forall|i: usize, j: usize|
                    #![trigger self.nodes()[i].childs.overflow(), self.nodes()[j].childs.overflow()]
                    self.nodes().dom().contains(i) && self.nodes().dom().contains(j) && i != j
                        && self.nodes()[i].childs.overflow() is Some implies self.nodes()[i].childs.overflow()
                        != self.nodes()[j].childs.overflow() by {
                    assert(o.nodes()[i].childs.overflow() == self.nodes()[i].childs.overflow());
                    assert(o.nodes()[j].childs.overflow() == self.nodes()[j].childs.overflow());
                }
                assert forall|i: usize, j: usize| #![trigger self.paths()[i], self.paths()[j]]
                    self.nodes().dom().contains(i) && self.nodes().dom().contains(j) && self.paths()[i]
                        == self.paths()[j] implies i == j by {
                    assert(o.paths()[i] == self.paths()[i]);
                    assert(o.paths()[j] == self.paths()[j]);
                }
                assert forall|x: usize| self.nodes().dom().contains(x) && x != self.root() implies #[trigger] self.has_parent(x) by {
                    assert(o.has_parent(x));
                    let (p, r) = choose|p: usize, r: u8| o.nodes().dom().contains(p) && #[trigger] o.child_of(o.nodes()[p], r) == Some(x);
                    assert(p != target_idx);
                    assert(self.child_of(self.nodes()[p], r) == Some(x));
                }
                assert forall|i: usize| #[trigger] self.nodes().dom().contains(i) && i != self.root() && i != parent_idx implies Self::canonical(self.nodes()[i]) by {
                    assert(o.nodes().dom().contains(i));
                }
                assert(self.wf_except(parent_idx));
                assert forall|k: Seq<u8>| #[trigger] self.lookup(k) == if k == key@ {
                    None
                } else {
                    o.lookup(k)
                } by {
                    if exists|m: usize| self.nodes().dom().contains(m) && #[trigger] self.paths()[m] == k {
                        let m = choose|m: usize| self.nodes().dom().contains(m) && #[trigger] self.paths()[m] == k;
                        assert(o.paths()[m] == k);
                        assert(m != target_idx);
                        self.lemma_lookup_node(m);
                        o.lemma_lookup_node(m);
                    } else {
                        self.lemma_lookup_none(k);
                        if k != key@ {
                            assert forall|n: usize| o.nodes().dom().contains(n) implies #[trigger] o.paths()[n] != k by {
                                if n != target_idx {
                                    assert(self.nodes().dom().contains(n));
                                    assert(self.paths()[n] == o.paths()[n]);
                                }
                            }
                            o.lemma_lookup_none(k);
                        }
                    }
                }
            }
            if parent_idx != self.root_idx {
                proof {
                    let pn = o.nodes()[parent_idx];
                    assert(Self::canonical(pn));
                }
                let ghost mid = *self;
                self.try_recompress(parent_idx);
            }
            node.val
        }
    }

    /// The keys starting with `p` that hold a value.
    pub open spec fn keys_with_prefix(&self, p: Seq<u8>) -> Set<Seq<u8>> {
        Set::new(|k: Seq<u8>| is_prefix(p, k) && self.lookup(k) is Some)
    }

    /// The value-bearing nodes whose key starts with `p`.
    pub open spec fn valued_with_prefix(&self, p: Seq<u8>) -> Set<usize> {
        Set::new(|n: usize| self.nodes().dom().contains(n) && is_prefix(p, self.paths()[n]) && self.nodes()[n].val is Some)
    }

    /// The value-bearing nodes of the zone of keys starting with `p`.
    pub open spec fn zone_values(&self, p: Seq<u8>) -> Set<usize> {
        Set::new(|n: usize| self.nodes().dom().contains(n) && self.in_zone(p, n) && self.nodes()[n].val is Some)
    }

    /// The value-bearing nodes of `before` that are gone from `after`.
    pub open spec fn freed_values(before: OxidArt, after: OxidArt) -> Set<usize> {
        Set::new(|n: usize| before.nodes().dom().contains(n) && !after.nodes().dom().contains(n)
            && before.nodes()[n].val is Some)
    }

    /// The overflow regions owned by nodes of `before` that are gone from
    /// `after`.
    pub open spec fn freed_tables(before: OxidArt, after: OxidArt) -> Set<usize> {
        Set::new(|h: usize| exists|n: usize| before.nodes().dom().contains(n) && !after.nodes().dom().contains(n)
            && #[trigger] before.nodes()[n].childs.overflow() == Some(h))
    }

    /// The overflow regions owned by nodes of the zone of keys starting with
    /// `p`.
    pub open spec fn zone_tables(&self, p: Seq<u8>) -> Set<usize> {
        Set::new(|h: usize| exists|n: usize| self.nodes().dom().contains(n) && self.in_zone(p, n)
            && #[trigger] self.nodes()[n].childs.overflow() == Some(h))
    }

    /// As many keys start with `p` and hold a value as nodes do.
    pub proof fn lemma_count_keys(&self, p: Seq<u8>)
        requires
            self.wf(),
        ensures
            self.valued_with_prefix(p).finite(),
            self.keys_with_prefix(p).len() == self.valued_with_prefix(p).len(),
    {
        let v = self.valued_with_prefix(p);
        let f = |n: usize| self.paths()[n];
        assert(v.subset_of(self.nodes().dom()));
        vstd::set_lib::lemma_len_subset(v, self.nodes().dom());
        assert(vstd::relations::injective_on(f, v)) by {
            assert forall|a: usize, b: usize| v.contains(a) && v.contains(b) && #[trigger] f(a) == #[trigger] f(b) implies a == b by {
                assert(self.paths()[a] == self.paths()[b]);
            }
        }
        assert(v.map(f) =~= self.keys_with_prefix(p)) by {
            assert forall|k: Seq<u8>| #[trigger] v.map(f).contains(k) implies self.keys_with_prefix(p).contains(k) by {
                let n = choose|n: usize| v.contains(n) && f(n) == k;
                self.lemma_lookup_node(n);
            }
            assert forall|k: Seq<u8>| #[trigger] self.keys_with_prefix(p).contains(k) implies v.map(f).contains(k) by {
                self.lemma_descend_root(k);
                let n = self.descend(self.root(), k)->0;
                assert(v.contains(n));
                assert(f(n) == k);
            }
        }
        vstd::set_lib::lemma_map_size(v, self.keys_with_prefix(p), f);
    }

    /// Node `c` is a child of node `n`.
    pub open spec fn is_child(&self, n: usize, c: usize) -> bool {
        exists|x: u8| #[trigger] self.child_of(self.nodes()[n], x) == Some(c)
    }

    /// Node `n` lies in the part of the tree whose keys start with `p`.
    pub open spec fn in_zone(&self, p: Seq<u8>, n: usize) -> bool {
        n != self.root() && is_prefix(p, self.paths()[n])
    }

    /// No node lies in a zone in which every present node has a parent
    /// that is present and in the zone: following parents would shorten the
    /// key forever.
    pub proof fn lemma_zone_has_top(&self, z: &OxidArt, p: Seq<u8>, n: usize)
        requires
            forall|m: usize| #[trigger] self.nodes().dom().contains(m) && z.in_zone(p, m) ==> exists|q: usize|
                self.nodes().dom().contains(q) && z.in_zone(p, q) && #[trigger] z.paths()[q].len()
                    < z.paths()[m].len(),
        ensures
            !(self.nodes().dom().contains(n) && z.in_zone(p, n)),
        decreases z.paths()[n].len(),
    {
        if self.nodes().dom().contains(n) && z.in_zone(p, n) {
            let q = choose|q: usize|
                self.nodes().dom().contains(q) && z.in_zone(p, q) && #[trigger] z.paths()[q].len() < z.paths()[n].len();
            self.lemma_zone_has_top(z, p, q);
        }
    }

    /// Keys that are prefixes of one node's key belong to the nodes met on
    /// the way down to it: from node `a`, reading the rest of node `b`'s key
    /// leads to `b`.
    pub proof fn lemma_chain(&self, a: usize, b: usize)
        requires
            self.wf_base(),
            self.parents_ok(),
            self.nodes().dom().contains(a),
            self.nodes().dom().contains(b),
            is_prefix(self.paths()[a], self.paths()[b]),
        ensures
            self.descend(a, self.paths()[b].subrange(self.paths()[a].len() as int, self.paths()[b].len() as int))
                == Some(b),
    {
        let pa = self.paths()[a];
        let pb = self.paths()[b];
        let rest = pb.subrange(pa.len() as int, pb.len() as int);
        self.lemma_reach(a);
        self.lemma_reach(b);
        self.lemma_descend_append(self.root(), pa, rest);
        assert(pa + rest =~= pb);
    }

    /// The children of node `node_idx`, primary region first.
    #[verifier::spinoff_prover]
    fn collect_child_indices(&self, node_idx: usize) -> (r: Vec<usize>)
        requires
            self.wf_base(),
            self.nodes().dom().contains(node_idx),
        ensures
            forall|k: int| 0 <= k < r@.len() ==> self.is_child(node_idx, #[trigger] r@[k]),
            forall|x: u8| #[trigger] self.child_of(self.nodes()[node_idx], x) is Some ==> r@.contains(
                self.child_of(self.nodes()[node_idx], x)->0,
            ),
    {
        let mut indices: Vec<usize> = Vec::new();
        let node = node_slab_get(&self.map, node_idx).unwrap();
        proof {
            assert(self.node_ok(*node));
        }
        let n = node.childs.len();
        let mut i: usize = 0;
        while i < n
            invariant
                i <= n,
                n == node.childs.entries().len(),
                *node == self.nodes()[node_idx],
                self.nodes().dom().contains(node_idx),
                node.childs.wf(),
                forall|k: int| 0 <= k < indices@.len() ==> self.is_child(node_idx, #[trigger] indices@[k]),
                forall|j: int| 0 <= j < i ==> indices@.contains(#[trigger] node.childs.entries()[j].1),
            decreases n - i,
        {
            let (radix, child_idx) = node.childs.entry_at(i);
            proof {
                lemma_entry_in_map(node.childs.entries(), i as int);
                assert(self.child_of(self.nodes()[node_idx], radix) == Some(child_idx));
            }
            let ghost before = indices@;
            indices.push(child_idx);
            proof {
                assert(indices@[indices@.len() - 1] == child_idx);
                assert forall|j: int| 0 <= j < i + 1 implies indices@.contains(#[trigger] node.childs.entries()[j].1) by {
                    if j < i {
                        let w = choose|w: int| 0 <= w < before.len() && before[w] == node.childs.entries()[j].1;
                        assert(indices@[w] == before[w]);
                    }
                }
            }
            i = i + 1;
        }
        let ghost prim = indices@;
        if let Some(huge_idx) = node.childs.get_next_idx() {
            let huge = table_slab_get(&self.child_list, huge_idx).unwrap();
            proof {
                assert(self.tables()[huge_idx].wf());
            }
            let m = huge.len();
            let mut j: usize = 0;
            while j < m
                invariant
                    j <= m,
                    m == huge.entries().len(),
                    *node == self.nodes()[node_idx],
                    self.nodes().dom().contains(node_idx),
                    self.node_ok(*node),
                    node.childs.overflow() == Some(huge_idx),
                    *huge == self.tables()[huge_idx],
                    huge.wf(),
                    prim.len() <= indices@.len(),
                    forall|q: int| 0 <= q < prim.len() ==> indices@[q] == prim[q],
                    forall|k: int| 0 <= k < indices@.len() ==> self.is_child(node_idx, #[trigger] indices@[k]),
                    forall|q: int| 0 <= q < j ==> indices@.contains(#[trigger] huge.entries()[q].1),
                decreases m - j,
            {
                let (radix, child_idx) = huge.entry_at(j);
                proof {
                    lemma_entry_in_map(huge.entries(), j as int);
                    assert(!node.childs.table().dom().contains(radix));
                    assert(self.child_of(self.nodes()[node_idx], radix) == Some(child_idx));
                }
                let ghost before = indices@;
                indices.push(child_idx);
                proof {
                    assert(indices@[indices@.len() - 1] == child_idx);
                    assert forall|q: int| 0 <= q < j + 1 implies indices@.contains(#[trigger] huge.entries()[q].1) by {
                        if q < j {
                            let w = choose|w: int| 0 <= w < before.len() && before[w] == huge.entries()[q].1;
                            assert(indices@[w] == before[w]);
                        }
                    }
                }
                j = j + 1;
            }
            proof {
                assert forall|x: u8| #[trigger] self.child_of(self.nodes()[node_idx], x) is Some implies indices@.contains(
                    self.child_of(self.nodes()[node_idx], x)->0,
                ) by {
                    if let Some(c) = self.child_of(self.nodes()[node_idx], x) {
                        if node.childs.table().dom().contains(x) {
                            let q = choose|q: int| 0 <= q < node.childs.entries().len() && node.childs.entries()[q].0 == x;
                            lemma_entry_in_map(node.childs.entries(), q);
                            assert(prim.contains(c));
                            let w = choose|w: int| 0 <= w < prim.len() && prim[w] == c;
                            assert(indices@[w] == c);
                        } else {
                            let q = choose|q: int| 0 <= q < huge.entries().len() && huge.entries()[q].0 == x;
                            lemma_entry_in_map(huge.entries(), q);
                        }
                    }
                }
            }
        } else {
            proof {
                assert forall|x: u8| #[trigger] self.child_of(self.nodes()[node_idx], x) is Some implies indices@.contains(
                    self.child_of(self.nodes()[node_idx], x)->0,
                ) by {
                    if let Some(c) = self.child_of(self.nodes()[node_idx], x) {
                        let q = choose|q: int| 0 <= q < node.childs.entries().len() && node.childs.entries()[q].0 == x;
                        lemma_entry_in_map(node.childs.entries(), q);
                    }
                }
            }
        }
        indices
    }

    /// Removing a node that no node leads to, with the overflow region it
    /// owns, keeps the structure well-formed and every other node's children.
    #[verifier::spinoff_prover]
    proof fn lemma_remove_unreferenced(before: &OxidArt, after: &OxidArt, y: usize)
        requires
            before.wf_base(),
            before.nodes().dom().contains(y),
            y != before.root(),
            !before.has_parent(y),
            after.nodes() == before.nodes().remove(y),
            after.paths() == before.paths().remove(y),
            after.root() == before.root(),
            after.tables() == match before.nodes()[y].childs.overflow() {
                Some(h) => before.tables().remove(h),
                None => before.tables(),
            },
        ensures
            after.wf_base(),
            forall|i: usize, x: u8| after.nodes().dom().contains(i) ==> #[trigger] after.child_of(after.nodes()[i], x)
                == before.child_of(before.nodes()[i], x),
    {
        let yn = before.nodes()[y];
        assert(after.nodes().dom() =~= before.nodes().dom().remove(y));
        assert(after.paths().dom() =~= after.nodes().dom());
        assert forall|i: usize, x: u8| after.nodes().dom().contains(i) implies #[trigger] after.child_of(after.nodes()[i], x)
            == before.child_of(before.nodes()[i], x) by {
            if let Some(hi) = before.nodes()[i].childs.overflow() {
                if let Some(hy) = yn.childs.overflow() {
                    assert(before.nodes()[i].childs.overflow() != before.nodes()[y].childs.overflow());
                }
            }
        }
        assert forall|i: usize| #[trigger] after.nodes().dom().contains(i) implies after.node_ok(after.nodes()[i]) by {
            assert(before.node_ok(before.nodes()[i]));
            if let Some(hi) = before.nodes()[i].childs.overflow() {
                if let Some(hy) = yn.childs.overflow() {
                    assert(before.nodes()[i].childs.overflow() != before.nodes()[y].childs.overflow());
                }
            }
        }
        assert forall|h: usize| #[trigger] after.tables().dom().contains(h) implies {
            &&& after.tables()[h].wf()
            &&& Self::avoids(after.tables()[h].table(), after.root())
            &&& Self::ascii_radixes(after.tables()[h].table())
        } by {
            assert(before.tables().dom().contains(h));
        }
        assert forall|i: usize, j: usize|
            #![trigger after.nodes()[i].childs.overflow(), after.nodes()[j].childs.overflow()]
            after.nodes().dom().contains(i) && after.nodes().dom().contains(j) && i != j
                && after.nodes()[i].childs.overflow() is Some implies after.nodes()[i].childs.overflow()
                != after.nodes()[j].childs.overflow() by {
            assert(before.nodes()[i].childs.overflow() == after.nodes()[i].childs.overflow());
            assert(before.nodes()[j].childs.overflow() == after.nodes()[j].childs.overflow());
        }
        assert forall|i: usize, x: u8| #![trigger after.child_of(after.nodes()[i], x)]
            after.nodes().dom().contains(i) && after.child_of(after.nodes()[i], x) is Some implies {
                let c = after.child_of(after.nodes()[i], x)->0;
                &&& after.nodes().dom().contains(c)
                &&& after.paths()[c] == after.paths()[i].push(x) + after.nodes()[c].comp()
            } by {
            assert(before.child_of(before.nodes()[i], x) is Some);
            let c = before.child_of(before.nodes()[i], x)->0;
            assert(c != y);
        }
        assert(after.edges_ok());
        assert forall|i: usize, j: usize| #![trigger after.paths()[i], after.paths()[j]]
            after.nodes().dom().contains(i) && after.nodes().dom().contains(j) && after.paths()[i]
                == after.paths()[j] implies i == j by {
            assert(before.paths()[i] == after.paths()[i]);
            assert(before.paths()[j] == after.paths()[j]);
        }
    }

    /// Frees, with the overflow regions they own, the nodes on the stack
    /// `initial_nodes` and everything below them, using an explicit stack;
    /// returns how many of the freed nodes held a value. The freed nodes are
    /// exactly those whose key starts with `zone`.
    #[verifier::rlimit(100)]
    #[verifier::spinoff_prover]
    fn free_subtree_iterative(&mut self, initial_nodes: Vec<usize>, zone: Ghost<Seq<u8>>, keep: Ghost<usize>) -> (r: usize)
        requires
            old(self).wf_base(),
            old(self).shaped_except(keep@),
            forall|k: int| 0 <= k < initial_nodes@.len() ==> {
                &&& old(self).in_zone(zone@, #[trigger] initial_nodes@[k])
                &&& !old(self).has_parent(initial_nodes@[k])
            },
            forall|c: usize| #[trigger] old(self).nodes().dom().contains(c) && c != old(self).root()
                ==> old(self).has_parent(c) || initial_nodes@.contains(c),
            forall|m: usize| #[trigger] old(self).nodes().dom().contains(m) && old(self).in_zone(zone@, m)
                ==> initial_nodes@.contains(m) || exists|q: usize, x: u8|
                    old(self).nodes().dom().contains(q) && old(self).in_zone(zone@, q)
                        && #[trigger] old(self).child_of(old(self).nodes()[q], x) == Some(m),
        ensures
            final(self).wf_base(),
            final(self).shaped_except(keep@),
            final(self).parents_ok(),
            final(self).root() == old(self).root(),
            forall|n: usize| #[trigger] final(self).nodes().dom().contains(n) <==> old(self).nodes().dom().contains(n)
                && !old(self).in_zone(zone@, n),
            forall|n: usize| #[trigger] final(self).nodes().dom().contains(n) ==> final(self).nodes()[n] == old(self).nodes()[n]
                && final(self).paths()[n] == old(self).paths()[n],
            r <= old(self).nodes().len() - final(self).nodes().len(),
            r == old(self).zone_values(zone@).len(),
            final(self).tables() == old(self).tables().remove_keys(old(self).zone_tables(zone@)),
            old(self).nodes().len() <= usize::MAX,
    {
        let ghost o = *self;
        let ghost z = zone@;
        let mut stack = initial_nodes;
        let mut count: usize = 0;
        let total = node_slab_len(&self.map);
        proof {
            assert(Self::freed_values(o, *self) =~= Set::<usize>::empty());
            assert(Self::freed_tables(o, *self) =~= Set::<usize>::empty());
            assert(o.tables().remove_keys(Set::<usize>::empty()) =~= o.tables());
        }
        loop
            invariant
                self.wf_base(),
                self.shaped_except(keep@),
                self.root() == o.root(),
                total == o.nodes().len(),
                count <= total - self.nodes().len(),
                self.nodes().len() <= total,
                count == Self::freed_values(o, *self).len(),
                Self::freed_values(o, *self).finite(),
                self.tables() == o.tables().remove_keys(Self::freed_tables(o, *self)),
                forall|n: usize| #[trigger] self.nodes().dom().contains(n) ==> o.nodes().dom().contains(n)
                    && self.nodes()[n] == o.nodes()[n] && self.paths()[n] == o.paths()[n],
                forall|n: usize| #[trigger] o.nodes().dom().contains(n) && !o.in_zone(z, n) ==> self.nodes().dom().contains(n),
                forall|k: int| 0 <= k < stack@.len() ==> {
                    &&& o.in_zone(z, #[trigger] stack@[k])
                    &&& (self.nodes().dom().contains(stack@[k]) ==> !self.has_parent(stack@[k]))
                },
                forall|c: usize| #[trigger] self.nodes().dom().contains(c) && c != self.root()
                    ==> self.has_parent(c) || stack@.contains(c),
                forall|m: usize| #[trigger] self.nodes().dom().contains(m) && o.in_zone(z, m)
                    ==> stack@.contains(m) || exists|q: usize, x: u8|
                        self.nodes().dom().contains(q) && o.in_zone(z, q)
                            && #[trigger] self.child_of(self.nodes()[q], x) == Some(m),
            ensures
                self.wf_base(),
                self.shaped_except(keep@),
                self.root() == o.root(),
                count <= total - self.nodes().len(),
                count == Self::freed_values(o, *self).len(),
                self.tables() == o.tables().remove_keys(Self::freed_tables(o, *self)),
                forall|n: usize| #[trigger] self.nodes().dom().contains(n) ==> o.nodes().dom().contains(n)
                    && self.nodes()[n] == o.nodes()[n] && self.paths()[n] == o.paths()[n],
                forall|n: usize| #[trigger] o.nodes().dom().contains(n) && !o.in_zone(z, n) ==> self.nodes().dom().contains(n),
                forall|c: usize| #[trigger] self.nodes().dom().contains(c) && c != self.root() ==> self.has_parent(c),
                forall|m: usize| #[trigger] self.nodes().dom().contains(m) && o.in_zone(z, m)
                    ==> exists|q: usize, x: u8|
                        self.nodes().dom().contains(q) && o.in_zone(z, q)
                            && #[trigger] self.child_of(self.nodes()[q], x) == Some(m),
            decreases self.nodes().len(), stack@.len(),
        {
            let ghost before = *self;
            let ghost st = stack@;
            let node_idx = match stack.pop() {
                Some(i) => i,
                None => break ,
            };
            proof {
                assert(stack@ =~= st.drop_last());
                assert forall|c: usize| st.contains(c) && c != node_idx implies stack@.contains(c) by {
                    let w = choose|w: int| 0 <= w < st.len() && st[w] == c;
                    assert(w < st.len() - 1);
                    assert(stack@[w] == c);
                }
            }
            let (has_val, huge_child_idx) = match node_slab_get(&self.map, node_idx) {
                Some(node) => (node.val.is_some(), node.childs.get_next_idx()),
                None => continue,
            };
            let children = self.collect_child_indices(node_idx);
            let ghost y = node_idx;
            proof {
                assert(o.in_zone(z, y));
                assert(!self.has_parent(y));
                assert(self.node_ok(self.nodes()[y]));
                // the children of the freed node lie in the zone and have no other parent
                assert forall|q: int| 0 <= q < children@.len() implies {
                    &&& o.in_zone(z, #[trigger] children@[q])
                    &&& forall|i: usize, x: u8| #![trigger self.child_of(self.nodes()[i], x)]
                        self.nodes().dom().contains(i) && self.child_of(self.nodes()[i], x) == Some(children@[q]) ==> i == y
                } by {
                    let c = children@[q];
                    assert(self.is_child(y, c));
                    let rx = choose|rx: u8| #[trigger] self.child_of(self.nodes()[y], rx) == Some(c);
                    let pc = self.paths()[c];
                    assert(pc == self.paths()[y].push(rx) + self.nodes()[c].comp());
                    assert(pc.subrange(0, z.len() as int) =~= self.paths()[y].subrange(0, z.len() as int));
                    assert(c != self.root()) by {
                        assert(self.paths()[self.root()].len() == 0);
                    }
                    assert forall|i: usize, x: u8| #![trigger self.child_of(self.nodes()[i], x)]
                        self.nodes().dom().contains(i) && self.child_of(self.nodes()[i], x) == Some(c) implies i == y by {
                        let tc = self.nodes()[c].comp();
                        assert(pc == self.paths()[i].push(x) + tc);
                        assert(self.paths()[i].push(x) =~= pc.subrange(0, pc.len() - tc.len()));
                        assert(self.paths()[y].push(rx) =~= pc.subrange(0, pc.len() - tc.len()));
                        assert(self.paths()[i] =~= self.paths()[i].push(x).drop_last());
                        assert(self.paths()[y] =~= self.paths()[y].push(rx).drop_last());
                    }
                }
            }
            let mut k: usize = 0;
            while k < children.len()
                invariant
                    st.len() >= 1,
                    k <= children@.len(),
                    stack@.len() == st.len() - 1 + k,
                    forall|w: int| 0 <= w < st.len() - 1 ==> stack@[w] == st[w],
                    forall|w: int| 0 <= w < k ==> stack@[st.len() - 1 + w] == children@[w],
                decreases children@.len() - k,
            {
                stack.push(children[k]);
                k = k + 1;
            }
            if has_val {
                count = count + 1;
            }
            let ghost mid = *self;
            if let Some(huge_idx) = huge_child_idx {
                let _ = table_slab_remove(&mut self.child_list, huge_idx);
            }
            let _ = node_slab_remove(&mut self.map, node_idx);
            self.paths = Ghost(self.paths@.remove(node_idx));
            proof {
                let yn = before.nodes()[y];
                assert(self.nodes() =~= before.nodes().remove(y));
                assert(self.paths() =~= before.paths().remove(y));
                Self::lemma_remove_unreferenced(&before, self, y);
                let ft = Self::freed_tables(o, before);
                match huge_child_idx {
                    Some(h) => {
                        assert(Self::freed_tables(o, *self) =~= ft.insert(h)) by {
                            assert(o.nodes()[y].childs.overflow() == Some(h));
                            assert forall|x: usize| Self::freed_tables(o, *self).contains(x) implies ft.insert(x).contains(x) && (x == h || ft.contains(x)) by {
                                let n = choose|n: usize| o.nodes().dom().contains(n) && !self.nodes().dom().contains(n)
                                    && #[trigger] o.nodes()[n].childs.overflow() == Some(x);
                                if n != y {
                                    assert(!before.nodes().dom().contains(n));
                                }
                            }
                        }
                        assert(self.tables() =~= o.tables().remove_keys(ft.insert(h)));
                    },
                    None => {
                        assert(Self::freed_tables(o, *self) =~= ft) by {
                            assert forall|x: usize| Self::freed_tables(o, *self).contains(x) implies ft.contains(x) by {
                                let n = choose|n: usize| o.nodes().dom().contains(n) && !self.nodes().dom().contains(n)
                                    && #[trigger] o.nodes()[n].childs.overflow() == Some(x);
                                if n != y {
                                    assert(!before.nodes().dom().contains(n));
                                }
                            }
                        }
                        assert(self.tables() =~= o.tables().remove_keys(ft));
                    },
                }
                let fb = Self::freed_values(o, before);
                if has_val {
                    assert(Self::freed_values(o, *self) =~= fb.insert(y));
                    assert(!fb.contains(y));
                } else {
                    assert(Self::freed_values(o, *self) =~= fb);
                }
                assert forall|c: usize| children@.contains(c) implies stack@.contains(c) by {
                    let w = choose|w: int| 0 <= w < children@.len() && children@[w] == c;
                    assert(stack@[st.len() - 1 + w] == c);
                }
                assert forall|c: usize| stack@.contains(c) implies st.contains(c) || children@.contains(c) by {
                    let w = choose|w: int| 0 <= w < stack@.len() && stack@[w] == c;
                    if w < st.len() - 1 {
                        assert(st[w] == c);
                    } else {
                        assert(children@[w - (st.len() - 1)] == c);
                    }
                }
                assert(self.wf_base());
                assert forall|k2: int| 0 <= k2 < stack@.len() implies {
                    &&& o.in_zone(z, #[trigger] stack@[k2])
                    &&& (self.nodes().dom().contains(stack@[k2]) ==> !self.has_parent(stack@[k2]))
                } by {
                    let c = stack@[k2];
                    if k2 < st.len() - 1 {
                        assert(st[k2] == c);
                        if self.nodes().dom().contains(c) && self.has_parent(c) {
                            let (i, x) = choose|i: usize, x: u8| self.nodes().dom().contains(i) && #[trigger] self.child_of(self.nodes()[i], x) == Some(c);
                            assert(before.child_of(before.nodes()[i], x) == Some(c));
                        }
                    } else {
                        let q = k2 - (st.len() - 1);
                        assert(children@[q] == c);
                        if self.nodes().dom().contains(c) && self.has_parent(c) {
                            let (i, x) = choose|i: usize, x: u8| self.nodes().dom().contains(i) && #[trigger] self.child_of(self.nodes()[i], x) == Some(c);
                            assert(before.child_of(before.nodes()[i], x) == Some(c));
                        }
                    }
                }
                assert forall|c: usize| #[trigger] self.nodes().dom().contains(c) && c != self.root()
                    implies self.has_parent(c) || stack@.contains(c) by {
                    if !stack@.contains(c) {
                        assert(!st.contains(c) || c == y);
                        assert(before.has_parent(c));
                        let (i, x) = choose|i: usize, x: u8| before.nodes().dom().contains(i) && #[trigger] before.child_of(before.nodes()[i], x) == Some(c);
                        if i == y {
                            assert(children@.contains(c));
                        }
                        assert(self.child_of(self.nodes()[i], x) == Some(c));
                    }
                }
                assert forall|m: usize| #[trigger] self.nodes().dom().contains(m) && o.in_zone(z, m)
                    implies stack@.contains(m) || exists|q: usize, x: u8|
                        self.nodes().dom().contains(q) && o.in_zone(z, q)
                            && #[trigger] self.child_of(self.nodes()[q], x) == Some(m) by {
                    if !stack@.contains(m) {
                        assert(!st.contains(m) || m == y);
                        let (q, x) = choose|q: usize, x: u8|
                            before.nodes().dom().contains(q) && o.in_zone(z, q)
                                && #[trigger] before.child_of(before.nodes()[q], x) == Some(m);
                        if q == y {
                            assert(children@.contains(m));
                        }
                        assert(self.child_of(self.nodes()[q], x) == Some(m));
                    }
                }
                vstd::set_lib::lemma_set_empty_equivalency_len(before.nodes().dom());
            }
        }
        proof {
            assert forall|m: usize| #[trigger] self.nodes().dom().contains(m) && o.in_zone(z, m) implies exists|q: usize|
                self.nodes().dom().contains(q) && o.in_zone(z, q) && #[trigger] o.paths()[q].len() < o.paths()[m].len() by {
                let (q, x) = choose|q: usize, x: u8|
                    self.nodes().dom().contains(q) && o.in_zone(z, q)
                        && #[trigger] self.child_of(self.nodes()[q], x) == Some(m);
                assert(self.paths()[m] == self.paths()[q].push(x) + self.nodes()[m].comp());
            }
            assert forall|n: usize| #[trigger] self.nodes().dom().contains(n) <==> o.nodes().dom().contains(n)
                && !o.in_zone(z, n) by {
                self.lemma_zone_has_top(&o, z, n);
            }
            assert(Self::freed_values(o, *self) =~= o.zone_values(z));
            assert(Self::freed_tables(o, *self) =~= o.zone_tables(z));
        }
        count
    }

    /// The first step of a successful `descend` goes to the child under the
    /// first byte, whose compression follows that byte.
    pub proof fn lemma_descend_first(&self, x: usize, k: Seq<u8>)
        requires
            self.descend(x, k) is Some,
            k.len() > 0,
        ensures
            self.child_of(self.nodes()[x], k[0]) is Some,
            is_prefix(
                self.nodes()[self.child_of(self.nodes()[x], k[0])->0].comp(),
                k.subrange(1, k.len() as int),
            ),
    {
    }

    /// When the only edge into the zone of keys starting with `p` comes from
    /// `parent` under `radix`, every other edge that enters the zone starts
    /// inside it.
    #[verifier::spinoff_prover]
    pub proof fn lemma_zone_entry(&self, p: Seq<u8>, parent: usize, radix: u8, t: usize, x: usize, r: u8)
        requires
            self.wf(),
            self.nodes().dom().contains(parent),
            self.child_of(self.nodes()[parent], radix) == Some(t),
            is_prefix(self.paths()[parent], p),
            self.paths()[parent].len() < p.len(),
            p[self.paths()[parent].len() as int] == radix,
            is_prefix(p, self.paths()[t]),
            self.nodes().dom().contains(x),
            !self.in_zone(p, x),
            self.child_of(self.nodes()[x], r) matches Some(c) && self.in_zone(p, c),
        ensures
            x == parent && r == radix,
    {
        let c = self.child_of(self.nodes()[x], r)->0;
        let pc = self.paths()[c];
        let px = self.paths()[x];
        let pp = self.paths()[parent];
        assert(pc == px.push(r) + self.nodes()[c].comp());
        assert(px =~= pc.subrange(0, px.len() as int));
        assert(pp =~= pc.subrange(0, pp.len() as int));
        assert(pc[px.len() as int] == r);
        if px.len() == pp.len() {
            assert(px =~= pp);
            assert(pc[pp.len() as int] == p[pp.len() as int]);
        } else if px.len() < pp.len() {
            assert(pp.subrange(0, px.len() as int) =~= px);
            assert(is_prefix(px, pp));
            self.lemma_chain(x, parent);
            let sx = pp.subrange(px.len() as int, pp.len() as int);
            self.lemma_descend_first(x, sx);
            assert(sx[0] == r);
            let cc = self.nodes()[c].comp();
            assert(sx.subrange(1, sx.len() as int).subrange(0, cc.len() as int) =~= pc.subrange((px.len() + 1) as int, (px.len() + 1 + cc.len()) as int));
            assert(pc.len() <= pp.len());
        } else {
            assert(px.subrange(0, pp.len() as int) =~= pp);
            assert(is_prefix(pp, px));
            self.lemma_chain(parent, x);
            let sp = px.subrange(pp.len() as int, px.len() as int);
            self.lemma_descend_first(parent, sp);
            assert(sp[0] == pc[pp.len() as int]);
            assert(pc[pp.len() as int] == p[pp.len() as int]);
            let tc = self.nodes()[t].comp();
            assert(self.paths()[t] == pp.push(radix) + tc);
            assert(self.paths()[t] =~= px.subrange(0, self.paths()[t].len() as int));
            assert(p =~= px.subrange(0, p.len() as int));
            assert(x != self.root());
        }
    }

    /// Removes every value whose key starts with `prefix` and returns how
    /// many nodes holding a value were freed. The empty prefix empties the
    /// tree, keeping only its root.
    #[verifier::spinoff_prover]
    pub fn deln(&mut self, prefix: &[u8]) -> (r: usize)
        requires
            old(self).wf(),
        ensures
            final(self).wf(),
            forall|k: Seq<u8>| #[trigger] final(self).lookup(k) == if is_prefix(prefix@, k) {
                None
            } else {
                old(self).lookup(k)
            },
            prefix@.len() == 0 ==> final(self).node_count() == 1,
            r == old(self).keys_with_prefix(prefix@).len(),
            final(self).root() == old(self).root(),
            final(self).tables().dom() == old(self).tables().dom().difference(old(self).zone_tables(prefix@)),
            prefix@.len() == 0 ==> {
                let root = final(self).nodes()[final(self).root()];
                &&& root.comp().len() == 0
                &&& root.val is None
                &&& root.childs.entries().len() == 0
                &&& root.childs.overflow() is None
            },
    {
        let ghost o = *self;
        let prefix_len = prefix.len();
        if prefix_len == 0 {
            let root_idx = self.root_idx;
            let childs_to_free = self.collect_child_indices(root_idx);
            let root = node_slab_at_mut(&mut self.map, root_idx);
            let had_val = root.val.take().is_some();
            root.childs = Childs::new();
            proof {
                assert(self.nodes().dom() =~= o.nodes().dom());
                assert(self.nodes()[root_idx].childs.table() =~= Map::<u8, usize>::empty());
                assert forall|i: usize, x: u8| self.nodes().dom().contains(i) implies #[trigger] self.child_of(self.nodes()[i], x)
                    == if i == root_idx { None } else { o.child_of(o.nodes()[i], x) } by {}
                assert forall|i: usize| #[trigger] self.nodes().dom().contains(i) implies self.node_ok(self.nodes()[i]) by {
                    assert(o.node_ok(o.nodes()[i]));
                }
                assert forall|i: usize, j: usize|
                    #![trigger self.nodes()[i].childs.overflow(), self.nodes()[j].childs.overflow()]
                    self.nodes().dom().contains(i) && self.nodes().dom().contains(j) && i != j
                        && self.nodes()[i].childs.overflow() is Some implies self.nodes()[i].childs.overflow()
                        != self.nodes()[j].childs.overflow() by {
                    if i != root_idx && j != root_idx {
                        assert(o.nodes()[i].childs.overflow() == self.nodes()[i].childs.overflow());
                        assert(o.nodes()[j].childs.overflow() == self.nodes()[j].childs.overflow());
                    }
                }
                assert forall|i: usize, x: u8| #![trigger self.child_of(self.nodes()[i], x)]
                    self.nodes().dom().contains(i) && self.child_of(self.nodes()[i], x) is Some implies {
                        let c = self.child_of(self.nodes()[i], x)->0;
                        &&& self.nodes().dom().contains(c)
                        &&& self.paths()[c] == self.paths()[i].push(x) + self.nodes()[c].comp()
                    } by {
                    assert(o.child_of(o.nodes()[i], x) is Some);
                }
                assert(self.edges_ok());
                assert(self.paths_injective());
                assert(self.wf_base());
                assert(self.shaped_except(root_idx));
                // the root led to each of its children and nothing else did
                assert forall|c: usize, i: usize, x: u8| #![trigger o.child_of(o.nodes()[i], x), o.paths()[c]]
                    o.nodes().dom().contains(i) && o.child_of(o.nodes()[i], x) == Some(c) && o.nodes().dom().contains(c)
                        && o.is_child(root_idx, c) implies i == root_idx by {
                    let rx = choose|rx: u8| #[trigger] o.child_of(o.nodes()[root_idx], rx) == Some(c);
                    let pc = o.paths()[c];
                    let tc = o.nodes()[c].comp();
                    assert(o.paths()[i].push(x) =~= pc.subrange(0, pc.len() - tc.len()));
                    assert(o.paths()[root_idx].push(rx) =~= pc.subrange(0, pc.len() - tc.len()));
                    assert(o.paths()[i] =~= o.paths()[i].push(x).drop_last());
                    assert(o.paths()[root_idx] =~= o.paths()[root_idx].push(rx).drop_last());
                }
                assert forall|k: int| 0 <= k < childs_to_free@.len() implies {
                    &&& self.in_zone(prefix@, #[trigger] childs_to_free@[k])
                    &&& !self.has_parent(childs_to_free@[k])
                } by {
                    let c = childs_to_free@[k];
                    assert(o.is_child(root_idx, c));
                    let rx = choose|rx: u8| #[trigger] o.child_of(o.nodes()[root_idx], rx) == Some(c);
                    assert(o.paths()[c] == o.paths()[root_idx].push(rx) + o.nodes()[c].comp());
                    assert(prefix@ =~= Seq::<u8>::empty());
                    assert(o.paths()[c].subrange(0, 0) =~= prefix@);
                    if self.has_parent(c) {
                        let (i, x) = choose|i: usize, x: u8| self.nodes().dom().contains(i) && #[trigger] self.child_of(self.nodes()[i], x) == Some(c);
                        assert(o.child_of(o.nodes()[i], x) == Some(c));
                    }
                }
                assert forall|c: usize| #[trigger] self.nodes().dom().contains(c) && c != self.root()
                    implies self.has_parent(c) || childs_to_free@.contains(c) by {
                    assert(o.has_parent(c));
                    let (i, x) = choose|i: usize, x: u8| o.nodes().dom().contains(i) && #[trigger] o.child_of(o.nodes()[i], x) == Some(c);
                    if i != root_idx {
                        assert(self.child_of(self.nodes()[i], x) == Some(c));
                    }
                }
                assert forall|m: usize| #[trigger] self.nodes().dom().contains(m) && self.in_zone(prefix@, m)
                    implies childs_to_free@.contains(m) || exists|q: usize, x: u8|
                        self.nodes().dom().contains(q) && self.in_zone(prefix@, q)
                            && #[trigger] self.child_of(self.nodes()[q], x) == Some(m) by {
                    assert(o.has_parent(m));
                    let (i, x) = choose|i: usize, x: u8| o.nodes().dom().contains(i) && #[trigger] o.child_of(o.nodes()[i], x) == Some(m);
                    if i != root_idx {
                        assert(self.child_of(self.nodes()[i], x) == Some(m));
                        assert(self.paths()[i].subrange(0, 0) =~= prefix@);
                    }
                }
            }
            let ghost mid = *self;
            let freed = self.free_subtree_iterative(childs_to_free, Ghost(prefix@), Ghost(root_idx));
            proof {
                assert(self.nodes().dom().contains(root_idx));
                vstd::set_lib::lemma_set_empty_equivalency_len(self.nodes().dom());
                assert forall|n: usize| self.nodes().dom().contains(n) implies n == root_idx by {
                    assert(mid.paths()[n].subrange(0, 0) =~= prefix@);
                }
                assert(self.nodes().dom() =~= set![root_idx]);
                assert forall|k: Seq<u8>| #[trigger] self.lookup(k) == if is_prefix(prefix@, k) {
                    None
                } else {
                    o.lookup(k)
                } by {
                    assert(k.subrange(0, 0) =~= prefix@);
                    assert forall|n: usize| self.nodes().dom().contains(n) && n != root_idx implies false by {
                        assert(mid.paths()[n].subrange(0, 0) =~= prefix@);
                    }
                    if k == Seq::<u8>::empty() {
                        self.lemma_lookup_node(root_idx);
                    } else {
                        assert forall|n: usize| self.nodes().dom().contains(n) implies #[trigger] self.paths()[n] != k by {
                            assert(n == root_idx);
                        }
                        self.lemma_lookup_none(k);
                    }
                }
            }
            proof {
                assert(mid.zone_tables(prefix@) =~= o.zone_tables(prefix@)) by {
                    assert forall|h: usize| mid.zone_tables(prefix@).contains(h) implies o.zone_tables(prefix@).contains(h) by {
                        let n = choose|n: usize| mid.nodes().dom().contains(n) && mid.in_zone(prefix@, n)
                            && #[trigger] mid.nodes()[n].childs.overflow() == Some(h);
                        assert(o.nodes()[n].childs.overflow() == Some(h));
                    }
                    assert forall|h: usize| o.zone_tables(prefix@).contains(h) implies mid.zone_tables(prefix@).contains(h) by {
                        let n = choose|n: usize| o.nodes().dom().contains(n) && o.in_zone(prefix@, n)
                            && #[trigger] o.nodes()[n].childs.overflow() == Some(h);
                        assert(mid.nodes()[n].childs.overflow() == Some(h));
                    }
                }
                assert(self.tables().dom() =~= o.tables().dom().difference(o.zone_tables(prefix@)));
                o.lemma_count_keys(prefix@);
                assert(mid.zone_values(prefix@) =~= o.zone_values(prefix@));
                let zv = o.zone_values(prefix@);
                assert(zv.subset_of(o.nodes().dom()));
                vstd::set_lib::lemma_len_subset(zv, o.nodes().dom());
                assert(!zv.contains(root_idx));
                assert(o.paths()[root_idx].subrange(0, 0) =~= prefix@);
                assert forall|n: usize| #[trigger] o.nodes().dom().contains(n) implies is_prefix(prefix@, o.paths()[n]) by {
                    assert(o.paths()[n].subrange(0, 0) =~= prefix@);
                }
                if had_val {
                    assert(o.valued_with_prefix(prefix@) =~= zv.insert(root_idx));
                } else {
                    assert(o.valued_with_prefix(prefix@) =~= zv);
                }
            }
            return if had_val {
                freed + 1
            } else {
                freed
            };
        }
        let mut idx: usize = self.root_idx;
        let mut cursor: usize = 0;
        let mut parent_idx: usize = self.root_idx;
        let mut parent_radix: u8 = 0;
        let mut target_idx: usize = self.root_idx;
        proof {
            assert(prefix@.subrange(0, 0) =~= Seq::<u8>::empty());
        }
        loop
            invariant_except_break
                cursor < prefix_len,
                self.paths()[idx] == prefix@.subrange(0, cursor as int),
                self.nodes().dom().contains(idx),
            invariant
                *self == o,
                o == *old(self),
                self.wf(),
                prefix_len == prefix@.len(),
                prefix_len > 0,
            ensures
                self.nodes().dom().contains(parent_idx),
                self.child_of(self.nodes()[parent_idx], parent_radix) == Some(target_idx),
                is_prefix(self.paths()[parent_idx], prefix@),
                self.paths()[parent_idx].len() < prefix@.len(),
                prefix@[self.paths()[parent_idx].len() as int] == parent_radix,
                is_prefix(prefix@, self.paths()[target_idx]),
            decreases prefix_len - cursor,
        {
            let radix = prefix[cursor];
            let ghost rest = prefix@.subrange(cursor + 1, prefix_len as int);
            proof {
                assert(prefix@ =~= self.paths()[idx].push(radix) + rest);
                assert(prefix@.subrange(0, cursor as int) =~= self.paths()[idx]);
            }
            let child_idx = match self.find(idx, radix) {
                Some(c) => c,
                None => {
                    proof {
                        self.lemma_reach(idx);
                        assert forall|k: Seq<u8>| is_prefix(prefix@, k) implies #[trigger] self.descend(self.root(), k) is None by {
                            let tail = k.subrange(cursor as int, k.len() as int);
                            assert(k =~= self.paths()[idx] + tail);
                            self.lemma_descend_append(self.root(), self.paths()[idx], tail);
                            assert(tail[0] == radix);
                        }
                    }
                    proof {
                        assert forall|k: Seq<u8>| is_prefix(prefix@, k) implies #[trigger] self.lookup(k) is None by {
                            assert(self.descend(self.root(), k) is None);
                        }
                        assert(self.keys_with_prefix(prefix@) =~= Set::<Seq<u8>>::empty());
                        assert(self.zone_tables(prefix@) =~= Set::<usize>::empty()) by {
                            assert forall|h: usize| !self.zone_tables(prefix@).contains(h) by {
                                if self.zone_tables(prefix@).contains(h) {
                                    let n = choose|n: usize| self.nodes().dom().contains(n) && self.in_zone(prefix@, n)
                                        && #[trigger] self.nodes()[n].childs.overflow() == Some(h);
                                    self.lemma_reach(n);
                                    assert(self.descend(self.root(), self.paths()[n]) is None);
                                }
                            }
                        }
                        assert(self.tables().dom() =~= self.tables().dom().difference(self.zone_tables(prefix@)));
                    }
                    return 0;
                },
            };
            let comparison = node_slab_get(&self.map, child_idx).unwrap().compare_compression_key(
                &prefix[cursor + 1..prefix_len],
            );
            let ghost comp = self.nodes()[child_idx].comp();
            proof {
                assert(self.paths()[child_idx] == self.paths()[idx].push(radix) + comp);
            }
            match comparison {
                CompResult::Final => {
                    proof {
                        assert(self.paths()[child_idx] =~= prefix@);
                        assert(prefix@.subrange(0, prefix@.len() as int) =~= prefix@);
                    }
                    parent_idx = idx;
                    parent_radix = radix;
                    target_idx = child_idx;
                    break ;
                },
                CompResult::Partial(common_len) => {
                    if common_len == prefix_len - cursor - 1 {
                        proof {
                            assert(rest.subrange(0, common_len as int) =~= rest);
                            assert(self.paths()[child_idx].subrange(0, prefix@.len() as int) =~= prefix@);
                        }
                        parent_idx = idx;
                        parent_radix = radix;
                        target_idx = child_idx;
                        break ;
                    }
                    proof {
                        if common_len as int == comp.len() {
                            assert(comp.subrange(0, common_len as int) =~= comp);
                            assert(is_prefix(comp, rest));
                        }
                        assert(common_len < comp.len());
                        assert(common_len < rest.len());
                        assert(comp[common_len as int] != rest[common_len as int]);
                        self.lemma_reach(idx);
                        assert forall|k: Seq<u8>| is_prefix(prefix@, k) implies #[trigger] self.descend(self.root(), k) is None by {
                            let tail = k.subrange(cursor as int, k.len() as int);
                            assert(k =~= self.paths()[idx] + tail);
                            self.lemma_descend_append(self.root(), self.paths()[idx], tail);
                            assert(tail[0] == radix);
                            let krest = tail.subrange(1, tail.len() as int);
                            assert(krest[common_len as int] == k[cursor + 1 + common_len]);
                            assert(k.subrange(0, prefix@.len() as int)[cursor + 1 + common_len] == prefix@[cursor + 1 + common_len]);
                            assert(krest[common_len as int] == rest[common_len as int]);
                            if is_prefix(comp, krest) {
                                assert(krest.subrange(0, comp.len() as int)[common_len as int] == krest[common_len as int]);
                            }
                            self.lemma_descend_short(idx, radix, child_idx, krest);
                            assert(tail =~= seq![radix] + krest);
                        }
                    }
                    proof {
                        assert forall|k: Seq<u8>| is_prefix(prefix@, k) implies #[trigger] self.lookup(k) is None by {
                            assert(self.descend(self.root(), k) is None);
                        }
                        assert(self.keys_with_prefix(prefix@) =~= Set::<Seq<u8>>::empty());
                        assert(self.zone_tables(prefix@) =~= Set::<usize>::empty()) by {
                            assert forall|h: usize| !self.zone_tables(prefix@).contains(h) by {
                                if self.zone_tables(prefix@).contains(h) {
                                    let n = choose|n: usize| self.nodes().dom().contains(n) && self.in_zone(prefix@, n)
                                        && #[trigger] self.nodes()[n].childs.overflow() == Some(h);
                                    self.lemma_reach(n);
                                    assert(self.descend(self.root(), self.paths()[n]) is None);
                                }
                            }
                        }
                        assert(self.tables().dom() =~= self.tables().dom().difference(self.zone_tables(prefix@)));
                    }
                    return 0;
                },
                CompResult::Path => {
                    cursor = cursor + 1 + comp_as_slice(&node_slab_get(&self.map, child_idx).unwrap().compression).len();
                    idx = child_idx;
                    proof {
                        assert(self.paths()[idx] =~= prefix@.subrange(0, cursor as int));
                    }
                },
            }
        }
        proof {
            assert(o.node_ok(o.nodes()[parent_idx]));
            assert(o.paths()[target_idx].len() > 0);
            // the parent was the only node leading to the target
            assert forall|i: usize, x: u8| #![trigger o.child_of(o.nodes()[i], x)]
                o.nodes().dom().contains(i) && o.child_of(o.nodes()[i], x) == Some(target_idx) implies
                i == parent_idx && x == parent_radix by {
                let pt = o.paths()[target_idx];
                let tc = o.nodes()[target_idx].comp();
                assert(pt == o.paths()[parent_idx].push(parent_radix) + tc);
                assert(pt == o.paths()[i].push(x) + tc);
                assert(o.paths()[i].push(x) =~= pt.subrange(0, pt.len() - tc.len()));
                assert(o.paths()[parent_idx].push(parent_radix) =~= pt.subrange(0, pt.len() - tc.len()));
                assert(o.paths()[i] =~= o.paths()[i].push(x).drop_last());
                assert(o.paths()[parent_idx] =~= o.paths()[parent_idx].push(parent_radix).drop_last());
                assert(o.paths()[i].push(x).last() == x);
                assert(o.paths()[parent_idx].push(parent_radix).last() == parent_radix);
            }
        }
        self.remove_child(parent_idx, parent_radix);
        let mut start: Vec<usize> = Vec::new();
        start.push(target_idx);
        proof {
            assert(start@[0] == target_idx);
            assert(self.in_zone(prefix@, target_idx));
            assert(!self.has_parent(target_idx)) by {
                if self.has_parent(target_idx) {
                    let (i, x) = choose|i: usize, x: u8| self.nodes().dom().contains(i) && #[trigger] self.child_of(self.nodes()[i], x) == Some(target_idx);
                    assert(o.child_of(o.nodes()[i], x) == Some(target_idx));
                }
            }
            assert forall|c: usize| #[trigger] self.nodes().dom().contains(c) && c != self.root()
                implies self.has_parent(c) || start@.contains(c) by {
                assert(o.has_parent(c));
                let (i, x) = choose|i: usize, x: u8| o.nodes().dom().contains(i) && #[trigger] o.child_of(o.nodes()[i], x) == Some(c);
                if !(i == parent_idx && x == parent_radix) {
                    assert(self.child_of(self.nodes()[i], x) == Some(c));
                } else {
                    assert(c == target_idx);
                }
            }
            assert forall|m: usize| #[trigger] self.nodes().dom().contains(m) && self.in_zone(prefix@, m)
                implies start@.contains(m) || exists|q: usize, x: u8|
                    self.nodes().dom().contains(q) && self.in_zone(prefix@, q)
                        && #[trigger] self.child_of(self.nodes()[q], x) == Some(m) by {
                assert(o.has_parent(m));
                let (i, x) = choose|i: usize, x: u8| o.nodes().dom().contains(i) && #[trigger] o.child_of(o.nodes()[i], x) == Some(m);
                if i == parent_idx && x == parent_radix {
                    assert(m == target_idx);
                } else {
                    if !o.in_zone(prefix@, i) {
                        o.lemma_zone_entry(prefix@, parent_idx, parent_radix, target_idx, i, x);
                    }
                    assert(self.child_of(self.nodes()[i], x) == Some(m));
                }
            }
        }
        let ghost mid = *self;
        let count = self.free_subtree_iterative(start, Ghost(prefix@), Ghost(parent_idx));
        proof {
            assert(mid.zone_tables(prefix@) =~= o.zone_tables(prefix@)) by {
                assert forall|h: usize| mid.zone_tables(prefix@).contains(h) implies o.zone_tables(prefix@).contains(h) by {
                    let n = choose|n: usize| mid.nodes().dom().contains(n) && mid.in_zone(prefix@, n)
                        && #[trigger] mid.nodes()[n].childs.overflow() == Some(h);
                    assert(o.nodes()[n].childs.overflow() == Some(h));
                }
                assert forall|h: usize| o.zone_tables(prefix@).contains(h) implies mid.zone_tables(prefix@).contains(h) by {
                    let n = choose|n: usize| o.nodes().dom().contains(n) && o.in_zone(prefix@, n)
                        && #[trigger] o.nodes()[n].childs.overflow() == Some(h);
                    assert(mid.nodes()[n].childs.overflow() == Some(h));
                }
            }
            assert(self.tables().dom() =~= o.tables().dom().difference(o.zone_tables(prefix@)));
            o.lemma_count_keys(prefix@);
            assert(mid.zone_values(prefix@) =~= o.valued_with_prefix(prefix@)) by {
                assert forall|n: usize| #[trigger] o.nodes().dom().contains(n) && is_prefix(prefix@, o.paths()[n]) implies n != o.root() by {
                    assert(o.paths()[o.root()].len() == 0);
                }
                assert forall|n: usize| mid.nodes().dom().contains(n) implies #[trigger] mid.nodes()[n].val == o.nodes()[n].val by {
                }
            }
            assert(!o.in_zone(prefix@, parent_idx));
            assert(self.nodes().dom().contains(parent_idx));
            assert forall|k: Seq<u8>| #[trigger] self.lookup(k) == if is_prefix(prefix@, k) {
                None
            } else {
                o.lookup(k)
            } by {
                if is_prefix(prefix@, k) {
                    assert forall|n: usize| self.nodes().dom().contains(n) implies #[trigger] self.paths()[n] != k by {
                        if self.paths()[n] == k {
                            assert(n != self.root());
                            assert(mid.in_zone(prefix@, n));
                        }
                    }
                    self.lemma_lookup_none(k);
                } else if exists|m: usize| o.nodes().dom().contains(m) && #[trigger] o.paths()[m] == k {
                    let m = choose|m: usize| o.nodes().dom().contains(m) && #[trigger] o.paths()[m] == k;
                    assert(!mid.in_zone(prefix@, m));
                    assert(self.nodes().dom().contains(m));
                    self.lemma_lookup_node(m);
                    o.lemma_lookup_node(m);
                } else {
                    assert forall|n: usize| self.nodes().dom().contains(n) implies #[trigger] self.paths()[n] != k by {
                        assert(o.paths()[n] == self.paths()[n]);
                    }
                    self.lemma_lookup_none(k);
                    o.lemma_lookup_none(k);
                }
            }
        }
        if parent_idx != self.root_idx {
            proof {
                assert(Self::canonical(o.nodes()[parent_idx]));
            }
            self.try_recompress(parent_idx);
        }
        count
    }

    /// Every stored pair whose key starts with `prefix`, each once, in no
    /// particular order.
    #[verifier::rlimit(100)]
    #[verifier::spinoff_prover]
    pub fn getn(&self, prefix: &[u8]) -> (r: Vec<(Vec<u8>, Vec<u8>)>)
        requires
            self.wf(),
        ensures
            forall|k: int| 0 <= k < r@.len() ==> {
                &&& is_prefix(prefix@, #[trigger] r@[k].0@)
                &&& self.lookup(r@[k].0@) == Some(r@[k].1@)
            },
            forall|key: Seq<u8>| is_prefix(prefix@, key) && #[trigger] self.lookup(key) is Some ==> exists|k: int|
                0 <= k < r@.len() && r@[k].0@ == key,
            forall|i: int, j: int| 0 <= i < j < r@.len() ==> r@[i].0@ != r@[j].0@,
    {
        let prefix_len = prefix.len();
        if prefix_len == 0 {
            let root = self.root_idx;
            let start: Vec<u8> = Vec::new();
            proof {
                assert(start@ =~= self.paths()[root]);
                assert(self.paths()[root].subrange(0, 0) =~= prefix@);
                assert forall|n: usize| self.nodes().dom().contains(n) && is_prefix(prefix@, #[trigger] self.paths()[n])
                    implies is_prefix(self.paths()[root], self.paths()[n]) by {
                    assert(self.paths()[n].subrange(0, 0) =~= self.paths()[root]);
                }
            }
            let results = self.collect_all_from(root, start);
            proof {
                self.prove_collected(prefix@, root, results@);
            }
            return results;
        }
        let mut idx: usize = self.root_idx;
        let mut cursor: usize = 0;
        let mut key_path: Vec<u8> = Vec::new();
        proof {
            assert(key_path@ =~= prefix@.subrange(0, 0));
        }
        loop
            invariant
                self.wf(),
                prefix_len == prefix@.len(),
                cursor < prefix_len,
                self.nodes().dom().contains(idx),
                key_path@ == prefix@.subrange(0, cursor as int),
                self.paths()[idx] == key_path@,
            decreases prefix_len - cursor,
        {
            let radix = prefix[cursor];
            let ghost rest = prefix@.subrange(cursor + 1, prefix_len as int);
            proof {
                assert(prefix@ =~= self.paths()[idx].push(radix) + rest);
            }
            let child_idx = match self.find(idx, radix) {
                Some(c) => c,
                None => {
                    proof {
                        self.lemma_reach(idx);
                        assert forall|k: Seq<u8>| is_prefix(prefix@, k) implies #[trigger] self.lookup(k) is None by {
                            let tail = k.subrange(cursor as int, k.len() as int);
                            assert(k =~= self.paths()[idx] + tail);
                            self.lemma_descend_append(self.root(), self.paths()[idx], tail);
                            assert(tail[0] == radix);
                        }
                    }
                    return Vec::new();
                },
            };
            let node = node_slab_get(&self.map, child_idx).unwrap();
            let comp = comp_as_slice(&node.compression);
            let next_path = Self::extend_path(&key_path, radix, comp);
            proof {
                assert(self.paths()[child_idx] == self.paths()[idx].push(radix) + node.comp());
                assert(next_path@ =~= self.paths()[child_idx]);
            }
            cursor = cursor + 1;
            match node.compare_compression_key(&prefix[cursor..prefix_len]) {
                CompResult::Final => {
                    proof {
                        assert(next_path@ =~= prefix@);
                    }
                    let results = self.collect_all_from(child_idx, next_path);
                    proof {
                        assert(prefix@.subrange(0, prefix@.len() as int) =~= prefix@);
                        self.prove_collected(prefix@, child_idx, results@);
                    }
                    return results;
                },
                CompResult::Partial(common_len) => {
                    if common_len == prefix_len - cursor {
                        let results = self.collect_all_from(child_idx, next_path);
                        proof {
                            let pc = self.paths()[child_idx];
                            assert(rest.subrange(0, common_len as int) =~= rest);
                            assert(pc.subrange(0, prefix@.len() as int) =~= prefix@);
                            assert forall|n: usize| self.nodes().dom().contains(n) && is_prefix(prefix@, #[trigger] self.paths()[n])
                                implies is_prefix(pc, self.paths()[n]) by {
                                let pn = self.paths()[n];
                                let pi = self.paths()[idx];
                                assert(pn.subrange(0, pi.len() as int) =~= pi);
                                self.lemma_chain(idx, n);
                                let sx = pn.subrange(pi.len() as int, pn.len() as int);
                                self.lemma_descend_first(idx, sx);
                                assert(sx[0] == radix);
                                let cc = node.comp();
                                assert(sx.subrange(1, sx.len() as int).subrange(0, cc.len() as int) =~= pn.subrange(
                                    (pi.len() + 1) as int,
                                    (pi.len() + 1 + cc.len()) as int,
                                ));
                                assert(pn.subrange(0, pc.len() as int) =~= pc);
                            }
                            self.prove_collected(prefix@, child_idx, results@);
                        }
                        return results;
                    }
                    proof {
                        let cs = node.comp();
                        if common_len as int == cs.len() {
                            assert(cs.subrange(0, common_len as int) =~= cs);
                            assert(is_prefix(cs, rest));
                        }
                        assert(common_len < cs.len());
                        assert(cs[common_len as int] != rest[common_len as int]);
                        self.lemma_reach(idx);
                        assert forall|k: Seq<u8>| is_prefix(prefix@, k) implies #[trigger] self.lookup(k) is None by {
                            let tail = k.subrange((cursor - 1) as int, k.len() as int);
                            assert(k =~= self.paths()[idx] + tail);
                            self.lemma_descend_append(self.root(), self.paths()[idx], tail);
                            assert(tail[0] == radix);
                            let krest = tail.subrange(1, tail.len() as int);
                            assert(krest[common_len as int] == k[cursor + common_len]);
                            assert(k.subrange(0, prefix@.len() as int)[cursor + common_len] == prefix@[cursor + common_len]);
                            assert(krest[common_len as int] == rest[common_len as int]);
                            if is_prefix(cs, krest) {
                                assert(krest.subrange(0, cs.len() as int)[common_len as int] == krest[common_len as int]);
                            }
                            self.lemma_descend_short(idx, radix, child_idx, krest);
                            assert(tail =~= seq![radix] + krest);
                        }
                    }
                    return Vec::new();
                },
                CompResult::Path => {
                    cursor = cursor + comp.len();
                    idx = child_idx;
                    key_path = next_path;
                    proof {
                        assert(key_path@ =~= prefix@.subrange(0, cursor as int));
                    }
                },
            }
        }
    }

    /// What `collect_all_from` gathered below `start` is what `getn` owes
    /// for `prefix`, when the keys starting with `prefix` are exactly the keys
    /// below `start`.
    proof fn prove_collected(&self, prefix: Seq<u8>, start: usize, r: Seq<(Vec<u8>, Vec<u8>)>)
        requires
            self.wf(),
            self.nodes().dom().contains(start),
            is_prefix(prefix, self.paths()[start]),
            forall|n: usize| self.nodes().dom().contains(n) && is_prefix(prefix, #[trigger] self.paths()[n])
                ==> is_prefix(self.paths()[start], self.paths()[n]),
            forall|k: int| 0 <= k < r.len() ==> exists|n: usize| {
                &&& self.nodes().dom().contains(n)
                &&& is_prefix(self.paths()[start], self.paths()[n])
                &&& #[trigger] self.paths()[n] == (#[trigger] r[k]).0@
                &&& self.nodes()[n].value() == Some(r[k].1@)
            },
            forall|n: usize| #[trigger] self.nodes().dom().contains(n) && is_prefix(self.paths()[start], self.paths()[n])
                && self.nodes()[n].val is Some ==> exists|k: int| 0 <= k < r.len() && (#[trigger] r[k]).0@ == self.paths()[n],
        ensures
            forall|k: int| 0 <= k < r.len() ==> {
                &&& is_prefix(prefix, #[trigger] r[k].0@)
                &&& self.lookup(r[k].0@) == Some(r[k].1@)
            },
            forall|key: Seq<u8>| is_prefix(prefix, key) && #[trigger] self.lookup(key) is Some ==> exists|k: int|
                0 <= k < r.len() && r[k].0@ == key,
    {
        let ps = self.paths()[start];
        assert forall|k: int| 0 <= k < r.len() implies {
            &&& is_prefix(prefix, #[trigger] r[k].0@)
            &&& self.lookup(r[k].0@) == Some(r[k].1@)
        } by {
            let n = choose|n: usize| {
                &&& self.nodes().dom().contains(n)
                &&& is_prefix(ps, self.paths()[n])
                &&& #[trigger] self.paths()[n] == (#[trigger] r[k]).0@
                &&& self.nodes()[n].value() == Some(r[k].1@)
            };
            let pn = self.paths()[n];
            assert(pn.subrange(0, prefix.len() as int) =~= ps.subrange(0, prefix.len() as int));
            self.lemma_lookup_node(n);
        }
        assert forall|key: Seq<u8>| is_prefix(prefix, key) && #[trigger] self.lookup(key) is Some implies exists|k: int|
            0 <= k < r.len() && r[k].0@ == key by {
            self.lemma_descend_root(key);
            let n = self.descend(self.root(), key)->0;
            assert(self.paths()[n] == key);
            assert(is_prefix(ps, self.paths()[n]));
        }
    }

    /// `path` followed by `radix` and `comp`.
    fn extend_path(path: &Vec<u8>, radix: u8, comp: &[u8]) -> (r: Vec<u8>)
        ensures
            r@ == path@ + seq![radix] + comp@,
    {
        let mut r = copy_bytes(path);
        r.push(radix);
        let mut k: usize = 0;
        while k < comp.len()
            invariant
                k <= comp@.len(),
                r@ == path@ + seq![radix] + comp@.subrange(0, k as int),
            decreases comp@.len() - k,
        {
            r.push(comp[k]);
            k = k + 1;
            assert(r@ =~= path@ + seq![radix] + comp@.subrange(0, k as int));
        }
        assert(comp@.subrange(0, comp@.len() as int) =~= comp@);
        r
    }

    /// A node has one parent: two edges that lead to the same node start at
    /// the same node, under the same radix.
    pub proof fn lemma_unique_parent(&self, p: usize, r: u8, q: usize, x: u8)
        requires
            self.wf_base(),
            self.nodes().dom().contains(p),
            self.nodes().dom().contains(q),
            self.child_of(self.nodes()[p], r) is Some,
            self.child_of(self.nodes()[q], x) == self.child_of(self.nodes()[p], r),
        ensures
            p == q,
            r == x,
    {
        let c = self.child_of(self.nodes()[p], r)->0;
        let pc = self.paths()[c];
        let tc = self.nodes()[c].comp();
        assert(pc == self.paths()[p].push(r) + tc);
        assert(pc == self.paths()[q].push(x) + tc);
        assert(self.paths()[p].push(r) =~= pc.subrange(0, pc.len() - tc.len()));
        assert(self.paths()[q].push(x) =~= pc.subrange(0, pc.len() - tc.len()));
        assert(self.paths()[p] =~= self.paths()[p].push(r).drop_last());
        assert(self.paths()[q] =~= self.paths()[q].push(x).drop_last());
        assert(self.paths()[p].push(r).last() == r);
        assert(self.paths()[q].push(x).last() == x);
    }

    /// Once every visited node's children are visited too, every node whose
    /// key extends the key of the visited node `start` has been visited.
    pub proof fn lemma_subtree_visited(&self, start: usize, visited: Set<usize>, n: usize)
        requires
            self.wf(),
            self.nodes().dom().contains(start),
            visited.contains(start),
            forall|p: usize, r: u8| #![trigger visited.contains(p), self.child_of(self.nodes()[p], r)]
                visited.contains(p) && self.child_of(self.nodes()[p], r) is Some
                    ==> visited.contains(self.child_of(self.nodes()[p], r)->0),
            self.nodes().dom().contains(n),
            is_prefix(self.paths()[start], self.paths()[n]),
        ensures
            visited.contains(n),
        decreases self.paths()[n].len(),
    {
        if n != start {
            let ps = self.paths()[start];
            let pn = self.paths()[n];
            assert(n != self.root()) by {
                if n == self.root() {
                    assert(ps.len() == 0);
                    assert(ps =~= self.paths()[self.root()]);
                }
            }
            assert(self.has_parent(n));
            let (p, r) = choose|p: usize, r: u8| self.nodes().dom().contains(p) && #[trigger] self.child_of(self.nodes()[p], r) == Some(n);
            let pp = self.paths()[p];
            let tc = self.nodes()[n].comp();
            assert(pn == pp.push(r) + tc);
            assert(pp =~= pn.subrange(0, pp.len() as int));
            if pp.len() < ps.len() {
                assert(ps =~= pn.subrange(0, ps.len() as int));
                assert(ps.subrange(0, pp.len() as int) =~= pp);
                self.lemma_chain(p, start);
                let sx = ps.subrange(pp.len() as int, ps.len() as int);
                self.lemma_descend_first(p, sx);
                assert(sx[0] == r);
                assert(sx.subrange(1, sx.len() as int).subrange(0, tc.len() as int) =~= pn.subrange((pp.len() + 1) as int, pn.len() as int));
                assert(ps =~= pn);
            }
            assert(pn.subrange(0, ps.len() as int) =~= ps);
            assert(pp.subrange(0, ps.len() as int) =~= ps);
            self.lemma_subtree_visited(start, visited, p);
        }
    }

    /// The children of node `node_idx` with their radixes, primary region
    /// first.
    #[verifier::spinoff_prover]
    fn collect_child_entries(&self, node_idx: usize) -> (r: Vec<(u8, usize)>)
        requires
            self.wf_base(),
            self.nodes().dom().contains(node_idx),
        ensures
            forall|k: int| 0 <= k < r@.len() ==> self.child_of(self.nodes()[node_idx], (#[trigger] r@[k]).0)
                == Some(r@[k].1),
            forall|i: int, j: int| 0 <= i < j < r@.len() ==> r@[i].0 != r@[j].0,
            forall|x: u8| #[trigger] self.child_of(self.nodes()[node_idx], x) is Some ==> exists|k: int|
                0 <= k < r@.len() && #[trigger] r@[k] == (x, self.child_of(self.nodes()[node_idx], x)->0),
    {
        let mut entries: Vec<(u8, usize)> = Vec::new();
        let node = node_slab_get(&self.map, node_idx).unwrap();
        proof {
            assert(self.node_ok(*node));
        }
        let n = node.childs.len();
        let mut i: usize = 0;
        while i < n
            invariant
                i <= n,
                n == node.childs.entries().len(),
                *node == self.nodes()[node_idx],
                self.nodes().dom().contains(node_idx),
                node.childs.wf(),
                entries@.len() == i,
                forall|q: int| 0 <= q < i ==> entries@[q] == node.childs.entries()[q],
                forall|k: int| 0 <= k < entries@.len() ==> self.child_of(self.nodes()[node_idx], (#[trigger] entries@[k]).0)
                    == Some(entries@[k].1),
            decreases n - i,
        {
            let e = node.childs.entry_at(i);
            proof {
                lemma_entry_in_map(node.childs.entries(), i as int);
            }
            entries.push(e);
            i = i + 1;
        }
        let ghost prim = entries@;
        if let Some(huge_idx) = node.childs.get_next_idx() {
            let huge = table_slab_get(&self.child_list, huge_idx).unwrap();
            proof {
                assert(self.tables()[huge_idx].wf());
            }
            let m = huge.len();
            let mut j: usize = 0;
            while j < m
                invariant
                    j <= m,
                    m == huge.entries().len(),
                    *node == self.nodes()[node_idx],
                    self.nodes().dom().contains(node_idx),
                    self.node_ok(*node),
                    node.childs.overflow() == Some(huge_idx),
                    *huge == self.tables()[huge_idx],
                    huge.wf(),
                    entries@.len() == prim.len() + j,
                    prim.len() == node.childs.entries().len(),
                    forall|q: int| 0 <= q < prim.len() ==> prim[q] == node.childs.entries()[q],
                    forall|q: int| 0 <= q < prim.len() ==> entries@[q] == prim[q],
                    forall|q: int| 0 <= q < j ==> entries@[prim.len() + q] == huge.entries()[q],
                    forall|k: int| 0 <= k < entries@.len() ==> self.child_of(self.nodes()[node_idx], (#[trigger] entries@[k]).0)
                        == Some(entries@[k].1),
                decreases m - j,
            {
                let e = huge.entry_at(j);
                proof {
                    lemma_entry_in_map(huge.entries(), j as int);
                    assert(!node.childs.table().dom().contains(e.0));
                }
                entries.push(e);
                j = j + 1;
            }
            proof {
                let np = prim.len() as int;
                assert forall|a: int, b: int| 0 <= a < b < entries@.len() implies entries@[a].0 != entries@[b].0 by {
                    if b < np {
                        assert(entries@[a] == prim[a]);
                        assert(prim[a] == node.childs.entries()[a]);
                        assert(entries@[b] == prim[b]);
                        assert(prim[b] == node.childs.entries()[b]);
                    } else if a < np {
                        assert(entries@[a] == prim[a]);
                        assert(prim[a] == node.childs.entries()[a]);
                        assert(node.childs.table().dom().contains(entries@[a].0));
                        let hq = b - np;
                        assert(entries@[b] == huge.entries()[hq]);
                        assert(huge.table().dom().contains(huge.entries()[hq].0));
                    } else {
                        assert(entries@[a] == huge.entries()[a - np]);
                        assert(entries@[b] == huge.entries()[b - np]);
                    }
                }
                assert forall|x: u8| #[trigger] self.child_of(self.nodes()[node_idx], x) is Some implies exists|k: int|
                    0 <= k < entries@.len() && #[trigger] entries@[k] == (x, self.child_of(self.nodes()[node_idx], x)->0) by {
                    if node.childs.table().dom().contains(x) {
                        let q = choose|q: int| 0 <= q < node.childs.entries().len() && node.childs.entries()[q].0 == x;
                        lemma_entry_in_map(node.childs.entries(), q);
                        assert(entries@[q] == prim[q]);
                        assert(prim[q] == node.childs.entries()[q]);
                        assert(entries@[q] == (x, self.child_of(self.nodes()[node_idx], x)->0));
                    } else {
                        let q = choose|q: int| 0 <= q < huge.entries().len() && huge.entries()[q].0 == x;
                        lemma_entry_in_map(huge.entries(), q);
                        assert(entries@[np + q] == (x, self.child_of(self.nodes()[node_idx], x)->0));
                    }
                }
            }
        } else {
            proof {
                assert forall|x: u8| #[trigger] self.child_of(self.nodes()[node_idx], x) is Some implies exists|k: int|
                    0 <= k < entries@.len() && #[trigger] entries@[k] == (x, self.child_of(self.nodes()[node_idx], x)->0) by {
                    let q = choose|q: int| 0 <= q < node.childs.entries().len() && node.childs.entries()[q].0 == x;
                    lemma_entry_in_map(node.childs.entries(), q);
                    assert(entries@[q] == (x, self.child_of(self.nodes()[node_idx], x)->0));
                }
            }
        }
        entries
    }

    /// The stack of the walk below `start`: it holds present, unvisited,
    /// distinct nodes of the subtree with their keys; every visited node has
    /// its children visited or stacked; every visited or stacked node but
    /// `start` has a visited parent; and `start` is visited or stacked.
    #[verifier::opaque]
    pub open spec fn walk_stack_ok(&self, start: usize, visited: Set<usize>, stack: Seq<(usize, Vec<u8>)>) -> bool {
        &&& visited.finite()
        &&& forall|x: usize| #[trigger] visited.contains(x) ==> self.nodes().dom().contains(x)
            && is_prefix(self.paths()[start], self.paths()[x])
        &&& forall|i: int| 0 <= i < stack.len() ==> {
            &&& self.nodes().dom().contains((#[trigger] stack[i]).0)
            &&& stack[i].1@ == self.paths()[stack[i].0]
            &&& is_prefix(self.paths()[start], self.paths()[stack[i].0])
            &&& !visited.contains(stack[i].0)
        }
        &&& forall|i: int, j: int| 0 <= i < j < stack.len() ==> stack[i].0 != stack[j].0
        &&& forall|p: usize, r: u8| #![trigger visited.contains(p), self.child_of(self.nodes()[p], r)]
            visited.contains(p) && self.child_of(self.nodes()[p], r) is Some ==> visited.contains(
                self.child_of(self.nodes()[p], r)->0,
            ) || exists|i: int| 0 <= i < stack.len() && (#[trigger] stack[i]).0 == self.child_of(
                self.nodes()[p],
                r,
            )->0
        &&& forall|i: int| 0 <= i < stack.len() && (#[trigger] stack[i]).0 != start ==> exists|p: usize, r: u8|
            visited.contains(p) && #[trigger] self.child_of(self.nodes()[p], r) == Some(stack[i].0)
        &&& forall|x: usize| #[trigger] visited.contains(x) && x != start ==> exists|p: usize, r: u8|
            visited.contains(p) && #[trigger] self.child_of(self.nodes()[p], r) == Some(x)
        &&& (visited.contains(start) || exists|i: int| 0 <= i < stack.len() && (#[trigger] stack[i]).0 == start)
    }

    /// The results of the walk pair each visited value-bearing node's key
    /// with its value, once.
    #[verifier::opaque]
    pub open spec fn walk_results_ok(&self, visited: Set<usize>, results: Seq<(Vec<u8>, Vec<u8>)>) -> bool {
        &&& forall|k: int| 0 <= k < results.len() ==> exists|n: usize| {
            &&& visited.contains(n)
            &&& #[trigger] self.paths()[n] == (#[trigger] results[k]).0@
            &&& self.nodes()[n].value() == Some(results[k].1@)
        }
        &&& forall|n: usize| #[trigger] visited.contains(n) && self.nodes()[n].val is Some ==> exists|k: int|
            0 <= k < results.len() && (#[trigger] results[k]).0@ == self.paths()[n]
        &&& forall|i: int, j: int| 0 <= i < j < results.len() ==> results[i].0@ != results[j].0@
    }

    /// The state of the walk below `start`.
    pub open spec fn walk_ok(
        &self,
        start: usize,
        visited: Set<usize>,
        stack: Seq<(usize, Vec<u8>)>,
        results: Seq<(Vec<u8>, Vec<u8>)>,
    ) -> bool {
        self.walk_stack_ok(start, visited, stack) && self.walk_results_ok(visited, results)
    }

    /// The children of the node on top of the walk's stack have not been
    /// seen: they are neither visited nor stacked, nor `start`; they are
    /// distinct and lie in the subtree.
    #[verifier::spinoff_prover]
    proof fn lemma_walk_children_fresh(
        &self,
        start: usize,
        visited: Set<usize>,
        st: Seq<(usize, Vec<u8>)>,
        children: Seq<(u8, usize)>,
    )
        requires
            self.wf(),
            self.nodes().dom().contains(start),
            self.walk_stack_ok(start, visited, st),
            st.len() > 0,
            forall|k: int| 0 <= k < children.len() ==> self.child_of(self.nodes()[st.last().0], (#[trigger] children[k]).0)
                == Some(children[k].1),
            forall|i: int, j: int| 0 <= i < j < children.len() ==> children[i].0 != children[j].0,
        ensures
            forall|q: int| 0 <= q < children.len() ==> {
                &&& !visited.contains(#[trigger] children[q].1)
                &&& forall|w: int| 0 <= w < st.len() - 1 ==> st[w].0 != children[q].1
                &&& children[q].1 != start
                &&& is_prefix(self.paths()[start], self.paths()[children[q].1])
                &&& self.nodes().dom().contains(children[q].1)
            },
            forall|a: int, b: int| 0 <= a < b < children.len() ==> children[a].1 != children[b].1,
            !visited.contains(st.last().0),
            self.nodes().dom().contains(st.last().0),
            st.last().1@ == self.paths()[st.last().0],
            is_prefix(self.paths()[start], self.paths()[st.last().0]),
            forall|x: usize| #[trigger] visited.contains(x) ==> self.nodes().dom().contains(x),
            visited.finite(),
    {
        reveal(OxidArt::walk_stack_ok);
        let s = st.last().0;
        let ps = self.paths()[s];
        assert(st[st.len() - 1] == st.last());
        let top = st[st.len() - 1];
        assert(is_prefix(self.paths()[start], self.paths()[top.0]));
        assert(self.paths()[start].len() <= ps.len());
        assert(!visited.contains(s));
        assert forall|q: int| 0 <= q < children.len() implies {
            &&& !visited.contains(#[trigger] children[q].1)
            &&& forall|w: int| 0 <= w < st.len() - 1 ==> st[w].0 != children[q].1
            &&& children[q].1 != start
            &&& is_prefix(self.paths()[start], self.paths()[children[q].1])
            &&& self.nodes().dom().contains(children[q].1)
        } by {
            let c = children[q].1;
            let rx = children[q].0;
            assert(self.child_of(self.nodes()[s], rx) == Some(c));
            let pc = self.paths()[c];
            let l = self.paths()[start].len() as int;
            assert(pc == ps.push(rx) + self.nodes()[c].comp());
            assert(ps.subrange(0, l) == self.paths()[start]);
            assert forall|t: int| 0 <= t < l implies pc[t] == ps[t] by {
                assert(pc[t] == ps.push(rx)[t]);
            }
            assert(pc.subrange(0, l) =~= self.paths()[start]);
            if c == start {
                assert(pc.len() > ps.len());
            }
            if visited.contains(c) {
                let (p, r) = choose|p: usize, r: u8| visited.contains(p) && #[trigger] self.child_of(self.nodes()[p], r) == Some(c);
                self.lemma_unique_parent(s, rx, p, r);
            }
            assert forall|w: int| 0 <= w < st.len() - 1 implies st[w].0 != c by {
                if st[w].0 == c {
                    let (p, r) = choose|p: usize, r: u8| visited.contains(p) && #[trigger] self.child_of(self.nodes()[p], r) == Some(st[w].0);
                    self.lemma_unique_parent(s, rx, p, r);
                }
            }
        }
        assert forall|a: int, b: int| 0 <= a < b < children.len() implies children[a].1 != children[b].1 by {
            if children[a].1 == children[b].1 {
                assert(self.child_of(self.nodes()[s], children[a].0) == Some(children[a].1));
                assert(self.child_of(self.nodes()[s], children[b].0) == Some(children[b].1));
                self.lemma_unique_parent(s, children[a].0, s, children[b].0);
            }
        }
    }

    /// One step of the walk, for the shape of the stack: the stacked nodes
    /// stay present, distinct, keyed and unvisited.
    #[verifier::spinoff_prover]
    proof fn lemma_walk_stack_shape(
        &self,
        start: usize,
        visited: Set<usize>,
        st: Seq<(usize, Vec<u8>)>,
        children: Seq<(u8, usize)>,
        stack: Seq<(usize, Vec<u8>)>,
    )
        requires
            self.wf(),
            self.nodes().dom().contains(start),
            self.walk_stack_ok(start, visited, st),
            st.len() > 0,
            stack.len() == st.len() - 1 + children.len(),
            forall|q: int| 0 <= q < st.len() - 1 ==> stack[q] == st[q],
            forall|q: int| 0 <= q < children.len() ==> (#[trigger] stack[st.len() - 1 + q]).0 == children[q].1
                && stack[st.len() - 1 + q].1@ == self.paths()[children[q].1],
            forall|k: int| 0 <= k < children.len() ==> self.child_of(self.nodes()[st.last().0], (#[trigger] children[k]).0)
                == Some(children[k].1),
            forall|i: int, j: int| 0 <= i < j < children.len() ==> children[i].0 != children[j].0,
            forall|x: u8| #[trigger] self.child_of(self.nodes()[st.last().0], x) is Some ==> exists|k: int|
                0 <= k < children.len() && #[trigger] children[k] == (x, self.child_of(self.nodes()[st.last().0], x)->0),
        ensures
            forall|i: int| 0 <= i < stack.len() ==> {
                &&& self.nodes().dom().contains((#[trigger] stack[i]).0)
                &&& stack[i].1@ == self.paths()[stack[i].0]
                &&& is_prefix(self.paths()[start], self.paths()[stack[i].0])
                &&& !visited.insert(st.last().0).contains(stack[i].0)
            },
            forall|i: int, j: int| 0 <= i < j < stack.len() ==> stack[i].0 != stack[j].0,
    {
        self.lemma_walk_children_fresh(start, visited, st, children);
        reveal(OxidArt::walk_stack_ok);
        let s = st.last().0;
        let nv = visited.insert(s);
        assert(st[st.len() - 1] == st.last());
        assert forall|a: int, b: int| 0 <= a < b < stack.len() implies stack[a].0 != stack[b].0 by {
            if b >= st.len() - 1 {
                let qb = b - (st.len() - 1);
                assert(stack[st.len() - 1 + qb].0 == children[qb].1);
                if a >= st.len() - 1 {
                    let qa = a - (st.len() - 1);
                    assert(stack[st.len() - 1 + qa].0 == children[qa].1);
                } else {
                    assert(stack[a] == st[a]);
                }
            } else {
                assert(stack[a] == st[a]);
                assert(stack[b] == st[b]);
            }
        }
        assert forall|i: int| 0 <= i < stack.len() implies {
            &&& self.nodes().dom().contains((#[trigger] stack[i]).0)
            &&& stack[i].1@ == self.paths()[stack[i].0]
            &&& is_prefix(self.paths()[start], self.paths()[stack[i].0])
            &&& !nv.contains(stack[i].0)
        } by {
            if i < st.len() - 1 {
                assert(stack[i] == st[i]);
                assert(st[i].0 != s);
            } else {
                let q = i - (st.len() - 1);
                assert(stack[st.len() - 1 + q].0 == children[q].1);
            }
        }
    }

    /// One step of the walk, for the children of visited nodes: they are
    /// visited or stacked.
    #[verifier::rlimit(100)]
    #[verifier::spinoff_prover]
    proof fn lemma_walk_stack_children(
        &self,
        start: usize,
        visited: Set<usize>,
        st: Seq<(usize, Vec<u8>)>,
        children: Seq<(u8, usize)>,
        stack: Seq<(usize, Vec<u8>)>,
    )
        requires
            self.wf(),
            self.nodes().dom().contains(start),
            self.walk_stack_ok(start, visited, st),
            st.len() > 0,
            stack.len() == st.len() - 1 + children.len(),
            forall|q: int| 0 <= q < st.len() - 1 ==> stack[q] == st[q],
            forall|q: int| 0 <= q < children.len() ==> (#[trigger] stack[st.len() - 1 + q]).0 == children[q].1
                && stack[st.len() - 1 + q].1@ == self.paths()[children[q].1],
            forall|k: int| 0 <= k < children.len() ==> self.child_of(self.nodes()[st.last().0], (#[trigger] children[k]).0)
                == Some(children[k].1),
            forall|i: int, j: int| 0 <= i < j < children.len() ==> children[i].0 != children[j].0,
            forall|x: u8| #[trigger] self.child_of(self.nodes()[st.last().0], x) is Some ==> exists|k: int|
                0 <= k < children.len() && #[trigger] children[k] == (x, self.child_of(self.nodes()[st.last().0], x)->0),
        ensures
            forall|p: usize, r: u8| #![trigger visited.insert(st.last().0).contains(p), self.child_of(self.nodes()[p], r)]
                visited.insert(st.last().0).contains(p) && self.child_of(self.nodes()[p], r) is Some
                    ==> visited.insert(st.last().0).contains(self.child_of(self.nodes()[p], r)->0)
                    || exists|i: int| 0 <= i < stack.len() && (#[trigger] stack[i]).0 == self.child_of(self.nodes()[p], r)->0,
    {
        reveal(OxidArt::walk_stack_ok);
        let s = st.last().0;
        let nv = visited.insert(s);
        assert(st[st.len() - 1] == st.last());
        assert forall|p: usize, r: u8| #![trigger nv.contains(p), self.child_of(self.nodes()[p], r)]
            nv.contains(p) && self.child_of(self.nodes()[p], r) is Some implies nv.contains(
                self.child_of(self.nodes()[p], r)->0,
            ) || exists|i: int| 0 <= i < stack.len() && (#[trigger] stack[i]).0 == self.child_of(self.nodes()[p], r)->0 by {
            let c = self.child_of(self.nodes()[p], r)->0;
            if p == s {
                let q = choose|q: int| 0 <= q < children.len() && #[trigger] children[q] == (r, c);
                assert(stack[st.len() - 1 + q].0 == c);
            } else if !visited.contains(c) {
                let w = choose|w: int| 0 <= w < st.len() && (#[trigger] st[w]).0 == c;
                if w != st.len() - 1 {
                    assert(stack[w] == st[w]);
                }
            }
        }
    }

    /// One step of the walk, for the stacked nodes: each but `start` has a
    /// visited parent.
    #[verifier::spinoff_prover]
    proof fn lemma_walk_stack_parents(
        &self,
        start: usize,
        visited: Set<usize>,
        st: Seq<(usize, Vec<u8>)>,
        children: Seq<(u8, usize)>,
        stack: Seq<(usize, Vec<u8>)>,
    )
        requires
            self.wf(),
            self.nodes().dom().contains(start),
            self.walk_stack_ok(start, visited, st),
            st.len() > 0,
            stack.len() == st.len() - 1 + children.len(),
            forall|q: int| 0 <= q < st.len() - 1 ==> stack[q] == st[q],
            forall|q: int| 0 <= q < children.len() ==> (#[trigger] stack[st.len() - 1 + q]).0 == children[q].1
                && stack[st.len() - 1 + q].1@ == self.paths()[children[q].1],
            forall|k: int| 0 <= k < children.len() ==> self.child_of(self.nodes()[st.last().0], (#[trigger] children[k]).0)
                == Some(children[k].1),
            forall|i: int, j: int| 0 <= i < j < children.len() ==> children[i].0 != children[j].0,
            forall|x: u8| #[trigger] self.child_of(self.nodes()[st.last().0], x) is Some ==> exists|k: int|
                0 <= k < children.len() && #[trigger] children[k] == (x, self.child_of(self.nodes()[st.last().0], x)->0),
        ensures
            forall|i: int| 0 <= i < stack.len() && (#[trigger] stack[i]).0 != start ==> exists|p: usize, r: u8|
                visited.insert(st.last().0).contains(p) && #[trigger] self.child_of(self.nodes()[p], r) == Some(stack[i].0),
    {
        reveal(OxidArt::walk_stack_ok);
        let s = st.last().0;
        let nv = visited.insert(s);
        assert(st[st.len() - 1] == st.last());
        assert forall|i: int| 0 <= i < stack.len() && (#[trigger] stack[i]).0 != start implies exists|p: usize, r: u8|
            nv.contains(p) && #[trigger] self.child_of(self.nodes()[p], r) == Some(stack[i].0) by {
            if i < st.len() - 1 {
                assert(stack[i] == st[i]);
                let (p, r) = choose|p: usize, r: u8| visited.contains(p) && #[trigger] self.child_of(self.nodes()[p], r) == Some(st[i].0);
                assert(nv.contains(p));
            } else {
                let q = i - (st.len() - 1);
                assert(stack[st.len() - 1 + q].0 == children[q].1);
                assert(self.child_of(self.nodes()[s], children[q].0) == Some(children[q].1));
            }
        }
    }

    /// One step of the walk, for the parents: everything seen but `start`
    /// keeps a visited parent, `start` stays seen, and the visited nodes stay
    /// in the subtree.
    #[verifier::rlimit(100)]
    #[verifier::spinoff_prover]
    proof fn lemma_walk_stack_links(
        &self,
        start: usize,
        visited: Set<usize>,
        st: Seq<(usize, Vec<u8>)>,
        children: Seq<(u8, usize)>,
        stack: Seq<(usize, Vec<u8>)>,
    )
        requires
            self.wf(),
            self.nodes().dom().contains(start),
            self.walk_stack_ok(start, visited, st),
            st.len() > 0,
            stack.len() == st.len() - 1 + children.len(),
            forall|q: int| 0 <= q < st.len() - 1 ==> stack[q] == st[q],
            forall|q: int| 0 <= q < children.len() ==> (#[trigger] stack[st.len() - 1 + q]).0 == children[q].1
                && stack[st.len() - 1 + q].1@ == self.paths()[children[q].1],
            forall|k: int| 0 <= k < children.len() ==> self.child_of(self.nodes()[st.last().0], (#[trigger] children[k]).0)
                == Some(children[k].1),
            forall|i: int, j: int| 0 <= i < j < children.len() ==> children[i].0 != children[j].0,
            forall|x: u8| #[trigger] self.child_of(self.nodes()[st.last().0], x) is Some ==> exists|k: int|
                0 <= k < children.len() && #[trigger] children[k] == (x, self.child_of(self.nodes()[st.last().0], x)->0),
        ensures
            forall|x: usize| #[trigger] visited.insert(st.last().0).contains(x) && x != start ==> exists|p: usize, r: u8|
                visited.insert(st.last().0).contains(p) && #[trigger] self.child_of(self.nodes()[p], r) == Some(x),
            visited.insert(st.last().0).contains(start) || exists|i: int| 0 <= i < stack.len() && (#[trigger] stack[i]).0 == start,
            forall|x: usize| #[trigger] visited.insert(st.last().0).contains(x) ==> self.nodes().dom().contains(x)
                && is_prefix(self.paths()[start], self.paths()[x]),
            visited.insert(st.last().0).finite(),
            visited.insert(st.last().0).len() <= self.nodes().len(),
    {
        reveal(OxidArt::walk_stack_ok);
        let s = st.last().0;
        let nv = visited.insert(s);
        assert(st[st.len() - 1] == st.last());
        assert forall|x: usize| #[trigger] nv.contains(x) && x != start implies exists|p: usize, r: u8|
            nv.contains(p) && #[trigger] self.child_of(self.nodes()[p], r) == Some(x) by {
            if x == s {
                let (p, r) = choose|p: usize, r: u8| visited.contains(p) && #[trigger] self.child_of(self.nodes()[p], r) == Some(st[st.len() - 1].0);
                assert(nv.contains(p));
            } else {
                let (p, r) = choose|p: usize, r: u8| visited.contains(p) && #[trigger] self.child_of(self.nodes()[p], r) == Some(x);
                assert(nv.contains(p));
            }
        }
        if !nv.contains(start) {
            let w = choose|w: int| 0 <= w < st.len() && (#[trigger] st[w]).0 == start;
            assert(w != st.len() - 1);
            assert(stack[w] == st[w]);
        }
        assert forall|x: usize| #[trigger] nv.contains(x) implies self.nodes().dom().contains(x)
            && is_prefix(self.paths()[start], self.paths()[x]) by {
            if x == s {
                assert(st[st.len() - 1].0 == s);
            }
        }
        vstd::set_lib::lemma_len_subset(nv, self.nodes().dom());
    }

    /// One step of the walk on the stack: the last stacked node is visited
    /// and its children stacked in its place.
    proof fn lemma_walk_stack_step(
        &self,
        start: usize,
        visited: Set<usize>,
        st: Seq<(usize, Vec<u8>)>,
        children: Seq<(u8, usize)>,
        stack: Seq<(usize, Vec<u8>)>,
    )
        requires
            self.wf(),
            self.nodes().dom().contains(start),
            self.walk_stack_ok(start, visited, st),
            st.len() > 0,
            stack.len() == st.len() - 1 + children.len(),
            forall|q: int| 0 <= q < st.len() - 1 ==> stack[q] == st[q],
            forall|q: int| 0 <= q < children.len() ==> (#[trigger] stack[st.len() - 1 + q]).0 == children[q].1
                && stack[st.len() - 1 + q].1@ == self.paths()[children[q].1],
            forall|k: int| 0 <= k < children.len() ==> self.child_of(self.nodes()[st.last().0], (#[trigger] children[k]).0)
                == Some(children[k].1),
            forall|i: int, j: int| 0 <= i < j < children.len() ==> children[i].0 != children[j].0,
            forall|x: u8| #[trigger] self.child_of(self.nodes()[st.last().0], x) is Some ==> exists|k: int|
                0 <= k < children.len() && #[trigger] children[k] == (x, self.child_of(self.nodes()[st.last().0], x)->0),
        ensures
            self.walk_stack_ok(start, visited.insert(st.last().0), stack),
            visited.insert(st.last().0).len() <= self.nodes().len(),
    {
        self.lemma_walk_stack_shape(start, visited, st, children, stack);
        self.lemma_walk_stack_children(start, visited, st, children, stack);
        self.lemma_walk_stack_parents(start, visited, st, children, stack);
        self.lemma_walk_stack_links(start, visited, st, children, stack);
        reveal(OxidArt::walk_stack_ok);
    }

    /// One step of the walk on the results: the visited node's value, if it
    /// has one, is emitted with its key.
    #[verifier::spinoff_prover]
    proof fn lemma_walk_results_step(
        &self,
        visited: Set<usize>,
        s: usize,
        rs: Seq<(Vec<u8>, Vec<u8>)>,
        results: Seq<(Vec<u8>, Vec<u8>)>,
    )
        requires
            self.wf(),
            self.walk_results_ok(visited, rs),
            forall|x: usize| #[trigger] visited.contains(x) ==> self.nodes().dom().contains(x),
            self.nodes().dom().contains(s),
            !visited.contains(s),
            self.nodes()[s].val is None ==> results == rs,
            self.nodes()[s].val is Some ==> {
                &&& results.len() == rs.len() + 1
                &&& forall|k: int| 0 <= k < rs.len() ==> results[k] == rs[k]
                &&& results[rs.len() as int].0@ == self.paths()[s]
                &&& self.nodes()[s].value() == Some(results[rs.len() as int].1@)
            },
        ensures
            self.walk_results_ok(visited.insert(s), results),
    {
        reveal(OxidArt::walk_results_ok);
        let nv = visited.insert(s);
        let ps = self.paths()[s];
        if self.nodes()[s].val is Some {
            assert forall|k: int| 0 <= k < rs.len() implies rs[k].0@ != ps by {
                let n = choose|n: usize| visited.contains(n) && #[trigger] self.paths()[n] == (#[trigger] rs[k]).0@
                    && self.nodes()[n].value() == Some(rs[k].1@);
                assert(n != s);
            }
        }
        assert forall|k: int| 0 <= k < results.len() implies exists|n: usize| {
            &&& nv.contains(n)
            &&& #[trigger] self.paths()[n] == (#[trigger] results[k]).0@
            &&& self.nodes()[n].value() == Some(results[k].1@)
        } by {
            if k < rs.len() {
                assert(results[k] == rs[k]);
                let n = choose|n: usize| visited.contains(n) && #[trigger] self.paths()[n] == (#[trigger] rs[k]).0@
                    && self.nodes()[n].value() == Some(rs[k].1@);
                assert(nv.contains(n));
            } else {
                assert(self.paths()[s] == results[k].0@);
            }
        }
        assert forall|n: usize| #[trigger] nv.contains(n) && self.nodes()[n].val is Some implies exists|k: int|
            0 <= k < results.len() && (#[trigger] results[k]).0@ == self.paths()[n] by {
            if n == s {
                assert(results[rs.len() as int].0@ == ps);
            } else {
                let k = choose|k: int| 0 <= k < rs.len() && (#[trigger] rs[k]).0@ == self.paths()[n];
                assert(results[k] == rs[k]);
            }
        }
        assert forall|i: int, j: int| 0 <= i < j < results.len() implies results[i].0@ != results[j].0@ by {
            if j < rs.len() {
                assert(results[i] == rs[i]);
                assert(results[j] == rs[j]);
            } else {
                assert(results[i] == rs[i]);
            }
        }
    }

    /// Every value-bearing node below and including node `start`, whose key
    /// is `start_path`, paired with its key; walked with an explicit stack.
    #[verifier::spinoff_prover]
    fn collect_all_from(&self, start: usize, start_path: Vec<u8>) -> (r: Vec<(Vec<u8>, Vec<u8>)>)
        requires
            self.wf(),
            self.nodes().dom().contains(start),
            start_path@ == self.paths()[start],
        ensures
            forall|k: int| 0 <= k < r@.len() ==> exists|n: usize| {
                &&& self.nodes().dom().contains(n)
                &&& is_prefix(self.paths()[start], self.paths()[n])
                &&& #[trigger] self.paths()[n] == (#[trigger] r@[k]).0@
                &&& self.nodes()[n].value() == Some(r@[k].1@)
            },
            forall|n: usize| #[trigger] self.nodes().dom().contains(n) && is_prefix(self.paths()[start], self.paths()[n])
                && self.nodes()[n].val is Some ==> exists|k: int| 0 <= k < r@.len() && (#[trigger] r@[k]).0@ == self.paths()[n],
            forall|i: int, j: int| 0 <= i < j < r@.len() ==> r@[i].0@ != r@[j].0@,
    {
        let mut results: Vec<(Vec<u8>, Vec<u8>)> = Vec::new();
        let mut stack: Vec<(usize, Vec<u8>)> = Vec::new();
        stack.push((start, start_path));
        let ghost mut visited = Set::<usize>::empty();
        proof {
            reveal(OxidArt::walk_stack_ok);
            reveal(OxidArt::walk_results_ok);
            assert(self.paths()[start].subrange(0, self.paths()[start].len() as int) =~= self.paths()[start]);
            assert(stack@[0].0 == start);
        }
        loop
            invariant
                self.wf(),
                self.nodes().dom().contains(start),
                self.walk_ok(start, visited, stack@, results@),
            ensures
                self.walk_ok(start, visited, stack@, results@),
                stack@.len() == 0,
            decreases self.nodes().len() - visited.len(),
        {
            let ghost st = stack@;
            let ghost rs = results@;
            let (node_idx, path) = match stack.pop() {
                Some(e) => e,
                None => break ,
            };
            proof {
                assert(st[st.len() - 1] == (node_idx, path));
                assert(stack@ =~= st.drop_last());
                self.lemma_walk_children_fresh(start, visited, st, Seq::<(u8, usize)>::empty());
            }
            let node = node_slab_get(&self.map, node_idx).unwrap();
            if let Some(v) = &node.val {
                results.push((copy_bytes(&path), copy_bytes(v)));
            }
            proof {
                if node.val is Some {
                    assert(results@[rs.len() as int].0@ == path@);
                }
            }
            let children = self.collect_child_entries(node_idx);
            let ghost base = stack@;
            let mut i: usize = 0;
            while i < children.len()
                invariant
                    self.wf(),
                    self.nodes().dom().contains(node_idx),
                    path@ == self.paths()[node_idx],
                    i <= children@.len(),
                    stack@.len() == base.len() + i,
                    forall|q: int| 0 <= q < base.len() ==> stack@[q] == base[q],
                    forall|q: int| 0 <= q < i ==> (#[trigger] stack@[base.len() + q]).0 == children@[q].1
                        && stack@[base.len() + q].1@ == self.paths()[children@[q].1],
                    forall|k: int| 0 <= k < children@.len() ==> self.child_of(self.nodes()[node_idx], (#[trigger] children@[k]).0)
                        == Some(children@[k].1),
                decreases children@.len() - i,
            {
                let (radix, child_idx) = children[i];
                let child = node_slab_get(&self.map, child_idx).unwrap();
                let child_path = Self::extend_path(&path, radix, comp_as_slice(&child.compression));
                proof {
                    assert(self.child_of(self.nodes()[node_idx], children@[i as int].0) == Some(children@[i as int].1));
                    assert(self.paths()[child_idx] == self.paths()[node_idx].push(radix) + child.comp());
                    assert(child_path@ =~= self.paths()[child_idx]);
                }
                stack.push((child_idx, child_path));
                i = i + 1;
            }
            proof {
                assert(st.last().0 == node_idx);
                assert(st.last().1@ == path@);
                assert forall|q: int| 0 <= q < st.len() - 1 implies stack@[q] == st[q] by {
                    assert(stack@[q] == base[q]);
                    assert(base[q] == st.drop_last()[q]);
                }
                self.lemma_walk_stack_step(start, visited, st, children@, stack@);
                self.lemma_walk_results_step(visited, node_idx, rs, results@);
                visited = visited.insert(node_idx);
            }
        }
        proof {
            reveal(OxidArt::walk_stack_ok);
            reveal(OxidArt::walk_results_ok);
            assert forall|n: usize| #[trigger] self.nodes().dom().contains(n) && is_prefix(self.paths()[start], self.paths()[n])
                && self.nodes()[n].val is Some implies exists|k: int| 0 <= k < results@.len() && (#[trigger] results@[k]).0@
                == self.paths()[n] by {
                self.lemma_subtree_visited(start, visited, n);
            }
        }
        results
    }

    /// Number of nodes in the arena, the root included.
    pub fn num_nodes(&self) -> (r: usize)
        ensures
            r == self.node_count(),
    {
        node_slab_len(&self.map)
    }

    /// An empty tree: a root node with no value and no children.
    pub fn new() -> (r: OxidArt)
        ensures
            r.wf(),
            forall|k: Seq<u8>| #[trigger] r.lookup(k) is None,
            r.node_count() == 1,
            r.tables().dom() == Set::<usize>::empty(),
            r.nodes()[r.root()].comp().len() == 0,
            r.nodes()[r.root()].val is None,
            r.nodes()[r.root()].childs.entries().len() == 0,
            r.nodes()[r.root()].childs.overflow() is None,
    {
        let mut map = node_slab_new(1024);
        let root_idx = node_slab_insert(&mut map, Node::empty());
        let child_list = table_slab_new(32);
        let ghost paths = Map::<usize, Seq<u8>>::empty().insert(root_idx, Seq::<u8>::empty());
        let r = OxidArt { map, child_list, root_idx, paths: Ghost(paths) };
        proof {
            assert(r.nodes().dom() =~= set![root_idx]);
            assert(r.paths().dom() =~= set![root_idx]);
            assert(r.nodes()[root_idx].childs.table() =~= Map::<u8, usize>::empty());
        }
        assert forall|k: Seq<u8>| #[trigger] r.lookup(k) is None by {
            reveal_with_fuel(OxidArt::descend, 2);
        }
        r
    }

    /// The child of node `idx` under `radix`.
    fn find(&self, idx: usize, radix: u8) -> (r: Option<usize>)
        requires
            self.wf(),
        ensures
            r == (if self.nodes().dom().contains(idx) {
                self.child_of(self.nodes()[idx], radix)
            } else {
                None
            }),
    {
        let child = match node_slab_get(&self.map, idx) {
            Some(node) => &node.childs,
            None => return None,
        };
        if let Some(index) = child.find(radix) {
            return Some(index);
        }
        match child.get_next_idx() {
            Some(h) => match table_slab_get(&self.child_list, h) {
                Some(t) => t.find(radix),
                None => None,
            },
            None => None,
        }
    }

    /// One step of `descend`: from `idx`, the child under `key[0]` and the
    /// rest of the key after that child's compression.
    proof fn lemma_descend_step(&self, idx: usize, key: Seq<u8>, c: usize)
        requires
            self.nodes().dom().contains(idx),
            key.len() > 0,
            self.child_of(self.nodes()[idx], key[0]) == Some(c),
            self.nodes().dom().contains(c),
        ensures
            ({
                let rest = key.subrange(1, key.len() as int);
                let comp = self.nodes()[c].comp();
                self.descend(idx, key) == if is_prefix(comp, rest) {
                    self.descend(c, rest.subrange(comp.len() as int, rest.len() as int))
                } else {
                    None
                }
            }),
    {
    }

    /// The value stored under `key`.
    pub fn get(&self, key: &[u8]) -> (r: Option<Vec<u8>>)
        requires
            self.wf(),
        ensures
            match r {
                Some(v) => self.lookup(key@) == Some(v@),
                None => self.lookup(key@) is None,
            },
    {
        let key_len = key.len();
        if key_len == 0 {
            let root = node_slab_get(&self.map, self.root_idx).unwrap();
            return match &root.val {
                Some(v) => Some(copy_bytes(v)),
                None => None,
            };
        }
        let mut idx: usize = self.root_idx;
        let mut cursor: usize = 0;
        assert(key@.subrange(0, key_len as int) =~= key@);
        loop
            invariant
                self.wf(),
                key_len == key@.len(),
                cursor < key_len,
                self.nodes().dom().contains(idx),
                self.descend(self.root(), key@) == self.descend(
                    idx,
                    key@.subrange(cursor as int, key_len as int),
                ),
            decreases key_len - cursor,
        {
            let ghost tail = key@.subrange(cursor as int, key_len as int);
            let child_idx = match self.find(idx, key[cursor]) {
                Some(c) => c,
                None => {
                    assert(self.descend(idx, tail) is None);
                    return None;
                },
            };
            let node = match node_slab_get(&self.map, child_idx) {
                Some(n) => n,
                None => {
                    assert(self.descend(idx, tail) is None);
                    return None;
                },
            };
            cursor = cursor + 1;
            let ghost rest = key@.subrange(cursor as int, key_len as int);
            proof {
                assert(rest =~= tail.subrange(1, tail.len() as int));
                self.lemma_descend_step(idx, tail, child_idx);
            }
            match node.compare_compression_key(&key[cursor..key_len]) {
                CompResult::Final => {
                    proof {
                        let comp = node.comp();
                        assert(rest.subrange(0, comp.len() as int) =~= rest);
                        assert(rest.subrange(comp.len() as int, rest.len() as int) =~= Seq::<u8>::empty());
                    }
                    return match &node.val {
                        Some(v) => Some(copy_bytes(v)),
                        None => None,
                    };
                },
                CompResult::Partial(_) => {
                    proof {
                        let comp = node.comp();
                        if is_prefix(comp, rest) && comp.len() == rest.len() {
                            assert(rest.subrange(0, comp.len() as int) =~= rest);
                        }
                    }
                    return None;
                },
                CompResult::Path => {
                    let clen = comp_as_slice(&node.compression).len();
                    idx = child_idx;
                    cursor = cursor + clen;
                    proof {
                        assert(rest.subrange(clen as int, rest.len() as int) =~= key@.subrange(
                            cursor as int,
                            key_len as int,
                        ));
                    }
                },
            }
        }
    }
}

} // verus!
