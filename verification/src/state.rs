use vstd::prelude::*;
use crate::descriptor::{GlobalListingDescriptor, ListingDescriptor};

verus! {

/// A listing and its instances at the vendors that sell it.
#[derive(Debug)]
pub struct Listing {
    pub descriptor: GlobalListingDescriptor,
    pub instances: Vec<ListingInstance>,
}

/// A listing as one vendor holds it.
#[derive(Debug, PartialEq, Eq)]
pub struct ListingInstance {
    pub descriptor: ListingDescriptor,
    /// May not be populated.
    pub title: Option<ListingTitleField>,
}

/// The title of a listing.
#[derive(Debug, PartialEq, Eq)]
pub struct ListingTitleField {
    pub value: String,
}

impl ListingTitleField {
    /// A copy of the title's text.
    pub fn clone_value(&self) -> (res: String)
        ensures
            res@ == self.value@,
    {
        self.value.clone()
    }
}

} // verus!
