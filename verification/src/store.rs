//! Trusted boundary around the slot-recycling store that holds the nodes.
//!
//! The store is `slab::Slab`, an outside crate. Its contents are named by the
//! two uninterpreted functions below, and every method the tree logic calls
//! goes through a wrapper whose contract states, over those names, what the
//! slab's own source shows.

use vstd::prelude::*;

use crate::toc::TocNode;

verus! {

#[verifier::external_type_specification]
#[verifier::external_body]
#[verifier::reject_recursive_types(T)]
pub struct ExSlab<T>(slab::Slab<T>);

/// The live entries of the store: key to stored node.
pub uninterp spec fn slab_entries(s: slab::Slab<TocNode>) -> Map<usize, TocNode>;

/// The key that the store's next insertion will use.
pub uninterp spec fn slab_next_key(s: slab::Slab<TocNode>) -> usize;

/// The empty contents.
pub open spec fn slab_no_entries() -> Map<usize, TocNode> {
    Map::empty()
}

/// Relies on slab::Slab::new: the new slab holds nothing, and its first
/// insertion uses key 0 (the source builds it with `next: 0`).
#[verifier::external_body]
pub(crate) fn slab_new() -> (res: slab::Slab<TocNode>)
    ensures
        slab_entries(res) == slab_no_entries(),
        slab_next_key(res) == 0,
{
    slab::Slab::new()
}

/// Relies on slab::Slab::vacant_key: the key the next insertion will use;
/// that key holds no value.
#[verifier::external_body]
pub(crate) fn slab_vacant_key(s: &slab::Slab<TocNode>) -> (k: usize)
    ensures
        k == slab_next_key(*s),
        !slab_entries(*s).dom().contains(k),
{
    s.vacant_key()
}

/// Relies on slab::Slab::insert: stores the value under the next vacant key
/// and returns that key.
#[verifier::external_body]
pub(crate) fn slab_insert(s: &mut slab::Slab<TocNode>, val: TocNode) -> (k: usize)
    ensures
        k == slab_next_key(*old(s)),
        !slab_entries(*old(s)).dom().contains(k),
        slab_entries(*final(s)) == slab_entries(*old(s)).insert(k, val),
{
    s.insert(val)
}

/// Relies on slab::Slab::remove: takes the value out, frees the key, and
/// makes that key the next vacant one (the source sets `next = key`).
/// It panics on a vacant key, which the precondition rules out.
#[verifier::external_body]
pub(crate) fn slab_remove(s: &mut slab::Slab<TocNode>, key: usize) -> (v: TocNode)
    requires
        slab_entries(*old(s)).dom().contains(key),
    ensures
        v == slab_entries(*old(s))[key],
        slab_entries(*final(s)) == slab_entries(*old(s)).remove(key),
        slab_next_key(*final(s)) == key,
{
    s.remove(key)
}

/// Relies on slab::Slab::get: the stored value for a live key, `None` otherwise.
#[verifier::external_body]
pub(crate) fn slab_get(s: &slab::Slab<TocNode>, key: usize) -> (r: Option<&TocNode>)
    ensures
        match r {
            Some(n) => slab_entries(*s).dom().contains(key) && *n == slab_entries(*s)[key],
            None => !slab_entries(*s).dom().contains(key),
        },
{
    s.get(key)
}

/// Relies on slab::Slab::contains: true exactly when the key holds a value.
#[verifier::external_body]
pub(crate) fn slab_contains(s: &slab::Slab<TocNode>, key: usize) -> (r: bool)
    ensures
        r == slab_entries(*s).dom().contains(key),
{
    s.contains(key)
}

} // verus!
