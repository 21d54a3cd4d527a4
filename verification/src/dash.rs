//! The concurrent hash map of the `dashmap` crate, made known to the
//! verifier. Its contents are named per use, beside the code that uses it.
use vstd::prelude::*;

verus! {

/// `dashmap::DashMap`, an opaque type to the verifier.
#[verifier::external_type_specification]
#[verifier::external_body]
#[verifier::reject_recursive_types(K)]
#[verifier::reject_recursive_types(V)]
#[verifier::reject_recursive_types(S)]
pub struct ExDashMap<K, V, S>(dashmap::DashMap<K, V, S>);

} // verus!
