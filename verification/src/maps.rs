//! Concurrent maps.
use vstd::prelude::*;

verus! {

/// `dashmap::DashMap`: a concurrent map. What it holds is named per key and value
/// type, where it is used. Changes go through an exclusive reference here.
#[verifier::external_type_specification]
#[verifier::external_body]
#[verifier::reject_recursive_types(K)]
#[verifier::reject_recursive_types(V)]
#[verifier::reject_recursive_types(S)]
pub struct ExDashMap<K, V, S>(dashmap::DashMap<K, V, S>);

} // verus!
