//! What the registry asks of its key type.

use vstd::prelude::*;
use vstd::std_specs::cmp::PartialEqSpec;

verus! {

/// `==` on keys decides identity: two keys compare equal exactly when they are
/// the same value.
///
/// A verified caller can show this for the key types whose `==` Verus knows
/// to be identity: the integer types, `bool`, and tuples and `Option`s of
/// these. It cannot be shown for `char`, nor for text (`String`, `&str`) or
/// `Vec`: two such values with the same content are equal by `==` without
/// being the same value here. A registry keyed by them runs as it should, but
/// its contracts are then not backed by a proof.
pub open spec fn obeys_key_equality<Id: PartialEq>() -> bool {
    &&& Id::obeys_eq_spec()
    &&& forall|a: Id, b: Id| #[trigger] a.eq_spec(&b) <==> a == b
}

} // verus!
