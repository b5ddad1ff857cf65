use vstd::prelude::*;
use hifitime::Epoch;
use uuid::Uuid;

verus! {

#[verifier::external_type_specification]
#[verifier::external_body]
pub struct ExUuid(Uuid);

/// A value read from a vendor, with the moments the request was sent and its
/// answer received.
#[derive(Debug)]
pub struct Poll<Type> {
    pub value: Type,
    pub sent: Epoch,
    pub received: Epoch,
}

/// The states that one round of a vendor's index gives, each with its global
/// descriptor and the id of the vendor that gave it, in the order of the index.
pub fn tag_with_vendor<G, S>(vendor_id: Uuid, records: Vec<(G, S)>) -> (res: Vec<(G, Uuid, S)>)
    ensures
        res@.len() == records@.len(),
        forall|i: int|
            0 <= i < records@.len() ==> #[trigger] res@[i] == (records@[i].0, vendor_id, records@[i].1),
{
    let ghost all = records@;
    let mut remaining = records;
    let mut res: Vec<(G, Uuid, S)> = Vec::new();
    while remaining.len() > 0
        invariant
            res@.len() + remaining@.len() == all.len(),
            remaining@ == all.skip(res@.len() as int),
            forall|i: int| 0 <= i < res@.len() ==> #[trigger] res@[i] == (all[i].0, vendor_id, all[i].1),
        decreases remaining@.len(),
    {
        let (global_descriptor, state) = remaining.remove(0);
        assert(all[res@.len() as int] == (global_descriptor, state));
        res.push((global_descriptor, vendor_id, state));
        assert(remaining@ =~= all.skip(res@.len() as int));
    }
    res
}

} // verus!
