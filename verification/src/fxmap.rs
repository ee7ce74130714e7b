//! The id-to-position maps of the library are `rustc_hash::FxHashMap`s.
//! std's `HashMap` methods are specified by vstd only for hash builders that
//! vstd knows to be deterministic; `FxBuildHasher` is not among them, so the
//! methods used here are called through the wrappers below.

use vstd::prelude::*;

use rustc_hash::{FxBuildHasher, FxHashMap};

use crate::types::NodeId;

verus! {

#[verifier::external_type_specification]
#[verifier::external_body]
pub struct ExFxBuildHasher(FxBuildHasher);

/// `FxHashMap::default()` (std's `HashMap::default` with the deterministic
/// `FxBuildHasher` of rustc-hash): the returned map is empty.
#[verifier::external_body]
pub(crate) fn fx_map_new() -> (r: FxHashMap<NodeId, usize>)
    ensures
        forall|k: NodeId| !#[trigger] r@.contains_key(k),
{
    FxHashMap::default()
}

/// std's `HashMap::insert` on an `FxHashMap`: afterwards the key maps to the
/// value and every other key is unchanged. The keys are `NodeId`s, whose `Eq`
/// and `Hash` are derived from their single `u64`.
#[verifier::external_body]
pub(crate) fn fx_map_insert(m: &mut FxHashMap<NodeId, usize>, key: NodeId, value: usize)
    ensures
        final(m)@ == old(m)@.insert(key, value),
{
    m.insert(key, value);
}

/// std's `HashMap::get` on an `FxHashMap`, with the found value copied out:
/// `Some` of the value stored under the key, or `None` when there is none.
#[verifier::external_body]
pub(crate) fn fx_map_get(m: &FxHashMap<NodeId, usize>, key: &NodeId) -> (r: Option<usize>)
    ensures
        r == (if m@.contains_key(*key) {
            Some(m@[*key])
        } else {
            None::<usize>
        }),
{
    m.get(key).copied()
}

} // verus!
