use vstd::prelude::*;
use hifitime::Epoch;
use crate::models::listing::{ListingDescriptor, ListingField};
use crate::vendor::VendorDescriptor;

verus! {

#[verifier::external_type_specification]
#[verifier::external_body]
pub struct ExEpoch(Epoch);

/// The interval between the moment a request was sent and the moment its
/// answer arrived: whatever the answer says held at some point within it.
pub type Window = (Epoch, Epoch);

/// What an observation is about.
#[derive(Debug)]
pub enum EntityDescriptor {
    ListingField((ListingDescriptor, ListingField)),
}

/// How the observed entity came to have its value.
#[derive(Debug, Clone, Copy, PartialEq, Eq, Structural)]
pub enum Action {
    Mutation,
    Assignment,
}

/// A change of an entity seen at a vendor within a window of time.
#[derive(Debug)]
pub struct Observation {
    pub subject: EntityDescriptor,
    pub at: Window,
    pub source: VendorDescriptor,
    pub action: Action,
}

/// The observation made of `field` of the listing described by `descriptor`,
/// seen by `source` within `at`, as an assignment.
pub open spec fn is_assignment_of(
    obs: Observation,
    descriptor: Seq<Seq<char>>,
    field: ListingField,
    at: Window,
    source: Seq<char>,
) -> bool {
    &&& obs.subject matches EntityDescriptor::ListingField(pair) && pair.0@ == descriptor
        && pair.1 == field
    &&& obs.at == at
    &&& obs.source@ == source
    &&& obs.action == Action::Assignment
}

} // verus!
