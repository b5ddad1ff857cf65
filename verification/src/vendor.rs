use vstd::prelude::*;

verus! {

/// The name under which a vendor is configured.
pub type VendorDescriptor = String;

} // verus!
