//! Opaque YAML values. The target document preserves top-level fields it
//! does not model, and profile options carry two placeholder YAML blocks;
//! both are held as `serde_yaml_ng::Value`, which this library never looks
//! inside.

use vstd::prelude::*;

verus! {

#[verifier::external_type_specification]
#[verifier::external_body]
pub struct ExValue(serde_yaml_ng::Value);

/// Relies on serde_yaml_ng::Value::Mapping and serde_yaml_ng::Mapping::new:
/// builds the empty YAML mapping value.
#[verifier::external_body]
pub fn empty_mapping() -> serde_yaml_ng::Value {
    serde_yaml_ng::Value::Mapping(serde_yaml_ng::Mapping::new())
}

} // verus!
