use vstd::prelude::*;
use crate::square::SquareListingDescriptor;

verus! {

/// Describes a listing across vendors; a listing with several variations is
/// described by the SKUs of all of them.
pub type GlobalListingDescriptor = Vec<String>;

/// Describes a listing at one vendor.
#[derive(Debug, PartialEq, Eq)]
pub enum ListingDescriptor {
    Square(SquareListingDescriptor),
}

} // verus!
