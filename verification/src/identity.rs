use vstd::prelude::*;
use vstd::std_specs::cmp::PartialEqSpec;

verus! {

/// Whether the executable `==` of `T` decides exactly whether two values are the same.
///
/// Identifiers are told apart with `==`, so every operation that looks an
/// identifier up is stated for types of which this holds. It holds of the
/// primitive integer types.
pub open spec fn eq_is_identity<T: PartialEq>() -> bool {
    &&& T::obeys_eq_spec()
    &&& forall|a: T, b: T| #[trigger] a.eq_spec(&b) <==> a == b
}

} // verus!
