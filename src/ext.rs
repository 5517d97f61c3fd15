//! Declarations of the outside containers the tree is built from, with the
//! contracts the rest of the library relies on.
use vstd::prelude::*;
use arrayvec::ArrayVec;
use slab::Slab;
use smallvec::SmallVec;
use crate::childs::HugeChilds;
use crate::node::Node;

verus! {

#[verifier::external_type_specification]
#[verifier::external_body]
#[verifier::reject_recursive_types(T)]
pub struct ExArrayVec<T, const CAP: usize>(ArrayVec<T, CAP>);

/// The entries held by a primary child region, in storage order.
pub uninterp spec fn primary_entries(v: ArrayVec<(u8, usize), 10>) -> Seq<(u8, usize)>;

/// The entries held by an overflow child region, in storage order.
pub uninterp spec fn overflow_entries(v: ArrayVec<(u8, usize), 118>) -> Seq<(u8, usize)>;

/// Relies on ArrayVec::new: a new vector holds nothing.
#[verifier::external_body]
pub(crate) fn primary_new() -> (r: ArrayVec<(u8, usize), 10>)
    ensures
        primary_entries(r) == Seq::<(u8, usize)>::empty(),
{
    ArrayVec::new()
}

/// Relies on ArrayVec::len: the number of entries, never above the capacity.
#[verifier::external_body]
pub(crate) fn primary_len(v: &ArrayVec<(u8, usize), 10>) -> (r: usize)
    ensures
        r == primary_entries(*v).len(),
        r <= 10,
{
    v.len()
}

/// Relies on ArrayVec's slice view: entry `i` in storage order.
#[verifier::external_body]
pub(crate) fn primary_at(v: &ArrayVec<(u8, usize), 10>, i: usize) -> (r: (u8, usize))
    requires
        i < primary_entries(*v).len(),
    ensures
        r == primary_entries(*v)[i as int],
{
    v[i]
}

/// Relies on ArrayVec::push: appends; it panics on a full vector.
#[verifier::external_body]
pub(crate) fn primary_push(v: &mut ArrayVec<(u8, usize), 10>, e: (u8, usize))
    requires
        primary_entries(*old(v)).len() < 10,
    ensures
        primary_entries(*final(v)) == primary_entries(*old(v)).push(e),
{
    v.push(e)
}

/// Relies on ArrayVec::swap_remove: takes out entry `i` and moves the last
/// entry into its place; it panics when `i` is out of bounds.
#[verifier::external_body]
pub(crate) fn primary_swap_remove(v: &mut ArrayVec<(u8, usize), 10>, i: usize) -> (r: (u8, usize))
    requires
        i < primary_entries(*old(v)).len(),
    ensures
        r == primary_entries(*old(v))[i as int],
        primary_entries(*final(v)) == primary_entries(*old(v)).update(
            i as int,
            primary_entries(*old(v)).last(),
        ).drop_last(),
{
    v.swap_remove(i)
}

/// Relies on ArrayVec::new: a new vector holds nothing.
#[verifier::external_body]
pub(crate) fn overflow_new() -> (r: ArrayVec<(u8, usize), 118>)
    ensures
        overflow_entries(r) == Seq::<(u8, usize)>::empty(),
{
    ArrayVec::new()
}

/// Relies on ArrayVec::len: the number of entries, never above the capacity.
#[verifier::external_body]
pub(crate) fn overflow_len(v: &ArrayVec<(u8, usize), 118>) -> (r: usize)
    ensures
        r == overflow_entries(*v).len(),
        r <= 118,
{
    v.len()
}

/// Relies on ArrayVec's slice view: entry `i` in storage order.
#[verifier::external_body]
pub(crate) fn overflow_at(v: &ArrayVec<(u8, usize), 118>, i: usize) -> (r: (u8, usize))
    requires
        i < overflow_entries(*v).len(),
    ensures
        r == overflow_entries(*v)[i as int],
{
    v[i]
}

/// Relies on ArrayVec::push: appends; it panics on a full vector.
#[verifier::external_body]
pub(crate) fn overflow_push(v: &mut ArrayVec<(u8, usize), 118>, e: (u8, usize))
    requires
        overflow_entries(*old(v)).len() < 118,
    ensures
        overflow_entries(*final(v)) == overflow_entries(*old(v)).push(e),
{
    v.push(e)
}

/// Relies on ArrayVec::swap_remove: takes out entry `i` and moves the last
/// entry into its place; it panics when `i` is out of bounds.
#[verifier::external_body]
pub(crate) fn overflow_swap_remove(v: &mut ArrayVec<(u8, usize), 118>, i: usize) -> (r: (u8, usize))
    requires
        i < overflow_entries(*old(v)).len(),
    ensures
        r == overflow_entries(*old(v))[i as int],
        overflow_entries(*final(v)) == overflow_entries(*old(v)).update(
            i as int,
            overflow_entries(*old(v)).last(),
        ).drop_last(),
{
    v.swap_remove(i)
}

#[verifier::external_type_specification]
#[verifier::external_body]
#[verifier::reject_recursive_types(T)]
pub struct ExSlab<T>(Slab<T>);

/// A compression buffer. Verus refuses a declaration of `SmallVec` itself
/// (its parameter is bound by the crate's `Array` trait), so the buffer is
/// held here, hidden from the verifier, and reached through the functions
/// below.
#[verifier::external_body]
pub struct CompBuf {
    inner: SmallVec<[u8; 23]>,
}

/// The bytes held by a compression buffer.
pub uninterp spec fn comp_bytes(v: CompBuf) -> Seq<u8>;

/// The occupied slots of the node arena, by key.
pub uninterp spec fn node_slots(s: Slab<Node>) -> Map<usize, Node>;

/// The occupied slots of the overflow-region arena, by key.
pub uninterp spec fn table_slots(s: Slab<HugeChilds>) -> Map<usize, HugeChilds>;

/// Relies on SmallVec::from_slice: a copy of the bytes.
#[verifier::external_body]
pub(crate) fn comp_from_slice(b: &[u8]) -> (r: CompBuf)
    ensures
        comp_bytes(r) == b@,
{
    CompBuf { inner: SmallVec::from_slice(b) }
}

/// Relies on SmallVec::as_slice: the bytes held.
#[verifier::external_body]
pub(crate) fn comp_as_slice(v: &CompBuf) -> (r: &[u8])
    ensures
        r@ == comp_bytes(*v),
{
    v.inner.as_slice()
}

/// Relies on Slab::with_capacity: a new slab holds nothing.
#[verifier::external_body]
pub(crate) fn node_slab_new(capacity: usize) -> (r: Slab<Node>)
    ensures
        node_slots(r).dom() == Set::<usize>::empty(),
{
    Slab::with_capacity(capacity)
}

/// Relies on Slab::insert: the value goes to a key that was vacant, which is
/// returned.
#[verifier::external_body]
pub(crate) fn node_slab_insert(s: &mut Slab<Node>, n: Node) -> (r: usize)
    ensures
        !node_slots(*old(s)).dom().contains(r),
        node_slots(*final(s)) == node_slots(*old(s)).insert(r, n),
{
    s.insert(n)
}

/// Relies on Slab::get: the value at an occupied key, nothing at a vacant one.
#[verifier::external_body]
pub(crate) fn node_slab_get(s: &Slab<Node>, i: usize) -> (r: Option<&Node>)
    ensures
        r is Some <==> node_slots(*s).dom().contains(i),
        r is Some ==> *r.unwrap() == node_slots(*s)[i],
{
    s.get(i)
}

/// Relies on Slab::remove: takes the value out and frees the key; it panics
/// on a vacant key.
#[verifier::external_body]
pub(crate) fn node_slab_remove(s: &mut Slab<Node>, i: usize) -> (r: Node)
    requires
        node_slots(*old(s)).dom().contains(i),
    ensures
        r == node_slots(*old(s))[i],
        node_slots(*final(s)) == node_slots(*old(s)).remove(i),
{
    s.remove(i)
}

/// Relies on Slab's IndexMut: the value at an occupied key, to change in
/// place; it panics on a vacant key.
#[verifier::external_body]
pub(crate) fn node_slab_at_mut(s: &mut Slab<Node>, i: usize) -> (r: &mut Node)
    requires
        node_slots(*old(s)).dom().contains(i),
    ensures
        *r == node_slots(*old(s))[i],
        node_slots(*final(s)) == node_slots(*old(s)).insert(i, *final(r)),
{
    &mut s[i]
}

/// Relies on Slab::len: the number of occupied keys.
#[verifier::external_body]
pub(crate) fn node_slab_len(s: &Slab<Node>) -> (r: usize)
    ensures
        r == node_slots(*s).len(),
{
    s.len()
}

/// Relies on Slab's IndexMut: the value at an occupied key, to change in
/// place; it panics on a vacant key.
#[verifier::external_body]
pub(crate) fn table_slab_at_mut(s: &mut Slab<HugeChilds>, i: usize) -> (r: &mut HugeChilds)
    requires
        table_slots(*old(s)).dom().contains(i),
    ensures
        *r == table_slots(*old(s))[i],
        table_slots(*final(s)) == table_slots(*old(s)).insert(i, *final(r)),
{
    &mut s[i]
}

/// Relies on Slab::with_capacity: a new slab holds nothing.
#[verifier::external_body]
pub(crate) fn table_slab_new(capacity: usize) -> (r: Slab<HugeChilds>)
    ensures
        table_slots(r).dom() == Set::<usize>::empty(),
{
    Slab::with_capacity(capacity)
}

/// Relies on Slab::insert: the value goes to a key that was vacant, which is
/// returned.
#[verifier::external_body]
pub(crate) fn table_slab_insert(s: &mut Slab<HugeChilds>, t: HugeChilds) -> (r: usize)
    ensures
        !table_slots(*old(s)).dom().contains(r),
        table_slots(*final(s)) == table_slots(*old(s)).insert(r, t),
{
    s.insert(t)
}

/// Relies on Slab::get: the value at an occupied key, nothing at a vacant one.
#[verifier::external_body]
pub(crate) fn table_slab_get(s: &Slab<HugeChilds>, i: usize) -> (r: Option<&HugeChilds>)
    ensures
        r is Some <==> table_slots(*s).dom().contains(i),
        r is Some ==> *r.unwrap() == table_slots(*s)[i],
{
    s.get(i)
}

/// Relies on Slab::remove: takes the value out and frees the key; it panics
/// on a vacant key.
#[verifier::external_body]
pub(crate) fn table_slab_remove(s: &mut Slab<HugeChilds>, i: usize) -> (r: HugeChilds)
    requires
        table_slots(*old(s)).dom().contains(i),
    ensures
        r == table_slots(*old(s))[i],
        table_slots(*final(s)) == table_slots(*old(s)).remove(i),
{
    s.remove(i)
}

} // verus!
