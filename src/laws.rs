//! Properties that relate several operations of the tree, proved from the
//! operations' contracts.
use vstd::prelude::*;
use crate::node::is_prefix;
use crate::tree::OxidArt;

verus! {

/// What `set(key, val)` promises: the tree is well-formed, `key` now holds
/// `val`, every other key is unchanged, and overwriting adds no node.
pub open spec fn set_done(before: OxidArt, after: OxidArt, key: Seq<u8>, val: Seq<u8>) -> bool {
    &&& after.wf()
    &&& forall|k: Seq<u8>| #[trigger] after.lookup(k) == if k == key {
        Some(val)
    } else {
        before.lookup(k)
    }
    &&& before.lookup(key) is Some ==> after.node_count() == before.node_count()
}

/// What `del(key)` promises, with `r` the value it returned.
pub open spec fn del_done(before: OxidArt, after: OxidArt, key: Seq<u8>, r: Option<Seq<u8>>) -> bool {
    &&& after.wf()
    &&& r == before.lookup(key)
    &&& forall|k: Seq<u8>| #[trigger] after.lookup(k) == if k == key {
        None
    } else {
        before.lookup(k)
    }
    &&& before.lookup(key) is None ==> after.node_count() == before.node_count()
}

/// What `deln(prefix)` promises about the stored pairs.
pub open spec fn deln_done(before: OxidArt, after: OxidArt, prefix: Seq<u8>) -> bool {
    &&& after.wf()
    &&& forall|k: Seq<u8>| #[trigger] after.lookup(k) == if is_prefix(prefix, k) {
        None
    } else {
        before.lookup(k)
    }
}

/// What `getn(prefix)` promises about the pairs `r` it returned.
pub open spec fn getn_done(t: OxidArt, prefix: Seq<u8>, r: Seq<(Seq<u8>, Seq<u8>)>) -> bool {
    &&& forall|i: int| 0 <= i < r.len() ==> is_prefix(prefix, #[trigger] r[i].0) && t.lookup(r[i].0) == Some(r[i].1)
    &&& forall|key: Seq<u8>| is_prefix(prefix, key) && #[trigger] t.lookup(key) is Some ==> exists|i: int|
        0 <= i < r.len() && r[i].0 == key
    &&& forall|i: int, j: int| 0 <= i < j < r.len() ==> r[i].0 != r[j].0
}

/// Round trip: after storing pairs with distinct keys one after another,
/// each key holds its own value.
pub proof fn law_round_trip(states: Seq<OxidArt>, keys: Seq<Seq<u8>>, vals: Seq<Seq<u8>>)
    requires
        keys.len() == vals.len(),
        states.len() == keys.len() + 1,
        forall|i: int| 0 <= i < keys.len() ==> set_done(states[i], #[trigger] states[i + 1], keys[i], vals[i]),
        forall|i: int, j: int| 0 <= i < j < keys.len() ==> keys[i] != keys[j],
    ensures
        forall|i: int| 0 <= i < keys.len() ==> #[trigger] states.last().lookup(keys[i]) == Some(vals[i]),
    decreases keys.len(),
{
    if keys.len() > 0 {
        let n = keys.len() - 1;
        law_round_trip(states.drop_last(), keys.drop_last(), vals.drop_last());
        assert forall|i: int| 0 <= i < keys.len() implies #[trigger] states.last().lookup(keys[i]) == Some(vals[i]) by {
            assert(set_done(states[n], states[n + 1], keys[n], vals[n]));
            assert(states.last() == states[n + 1]);
            if i < n {
                assert(states.drop_last().last() == states[n]);
                assert(keys.drop_last()[i] == keys[i]);
                assert(vals.drop_last()[i] == vals[i]);
                assert(states[n + 1].lookup(keys[i]) == states[n].lookup(keys[i]));
            }
        }
    }
}

/// Overwrite: storing a second value under a key leaves that value there
/// and adds no node.
pub proof fn law_overwrite(t0: OxidArt, t1: OxidArt, t2: OxidArt, k: Seq<u8>, v1: Seq<u8>, v2: Seq<u8>)
    requires
        set_done(t0, t1, k, v1),
        set_done(t1, t2, k, v2),
    ensures
        t2.lookup(k) == Some(v2),
        t2.node_count() == t1.node_count(),
{
    assert(t1.lookup(k) == Some(v1));
}

/// Deleting twice: the first deletion of a stored key returns its value,
/// the second returns nothing and changes neither a stored pair nor the
/// number of nodes.
pub proof fn law_delete_twice(
    t0: OxidArt,
    t1: OxidArt,
    t2: OxidArt,
    k: Seq<u8>,
    r1: Option<Seq<u8>>,
    r2: Option<Seq<u8>>,
)
    requires
        t0.lookup(k) is Some,
        del_done(t0, t1, k, r1),
        del_done(t1, t2, k, r2),
    ensures
        r1 == t0.lookup(k),
        r1 is Some,
        r2 is None,
        forall|q: Seq<u8>| #[trigger] t2.lookup(q) == t1.lookup(q),
        t2.node_count() == t1.node_count(),
{
    assert(t1.lookup(k) is None);
    assert forall|q: Seq<u8>| #[trigger] t2.lookup(q) == t1.lookup(q) by {
        if q == k {
        }
    }
}

/// Prefix deletion: afterwards no pair is found under the prefix, and no
/// key outside it lost its value.
pub proof fn law_prefix_deletion(t0: OxidArt, t1: OxidArt, p: Seq<u8>, r: Seq<(Seq<u8>, Seq<u8>)>)
    requires
        deln_done(t0, t1, p),
        getn_done(t1, p, r),
    ensures
        r.len() == 0,
        forall|k: Seq<u8>| !is_prefix(p, k) ==> #[trigger] t1.lookup(k) == t0.lookup(k),
{
    if r.len() > 0 {
        assert(is_prefix(p, r[0].0) && t1.lookup(r[0].0) == Some(r[0].1));
    }
}

/// Empty-prefix deletion: afterwards no key holds a value.
pub proof fn law_empty_prefix_deletion(t0: OxidArt, t1: OxidArt)
    requires
        deln_done(t0, t1, Seq::<u8>::empty()),
    ensures
        forall|k: Seq<u8>| #[trigger] t1.lookup(k) is None,
{
    assert forall|k: Seq<u8>| #[trigger] t1.lookup(k) is None by {
        assert(k.subrange(0, 0) =~= Seq::<u8>::empty());
    }
}

/// Canonical shape: in a well-formed tree no node but the root is
/// value-less with exactly one child in its primary region and no overflow
/// region.
pub proof fn law_canonical_shape(t: OxidArt)
    requires
        t.wf(),
    ensures
        forall|n: usize| #[trigger] t.nodes().dom().contains(n) && n != t.root() ==> !({
            let node = t.nodes()[n];
            node.val is None && node.childs.entries().len() == 1 && node.childs.overflow() is None
        }),
{
}

} // verus!
