use vstd::prelude::*;

pub mod paths;
pub mod plan;
pub mod sniff;

verus! {

/// The one failure the library itself can raise: the path has no usable
/// file-name component, so no extension can be set or cleared on it.
#[derive(Clone, Copy, Debug, PartialEq, Eq, Structural)]
pub enum RuntimeErrors {
    UnableToSetExtension,
}

} // verus!
