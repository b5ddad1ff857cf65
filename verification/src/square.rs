use vstd::prelude::*;
use crate::catalog::{
    all_variations_have_data, response_objects, variation_skus, CatalogItem, CatalogObject,
    ListCatalogResponse,
};
use crate::descriptor::{GlobalListingDescriptor, ListingDescriptor};
use crate::state::{ListingInstance, ListingTitleField};

verus! {

/// Identifies a listing at Square by its catalog object.
#[derive(Debug, PartialEq, Eq)]
pub struct SquareListingDescriptor {
    pub catalog_object_id: String,
}

/// Square's data model promises that an item has at least one variation and
/// that a tracked item has a name; an object that breaks these promises cannot
/// be processed.
pub open spec fn listing_processable(listing: CatalogObject) -> bool {
    listing.item_data matches Some(item) ==> {
        &&& item.variations matches Some(variations)
        &&& variations@.len() >= 1
        &&& all_variations_have_data(variations@) && variation_skus(variations@).len() > 0
            ==> item.name is Some
    }
}

/// An object is indexed when it is an item, all of whose variations carry
/// variation data, and at least one of them has a SKU. Items without a SKU are
/// not tracked.
pub open spec fn listing_is_indexed(listing: CatalogObject) -> bool {
    &&& listing.item_data matches Some(item)
    &&& item.variations matches Some(variations)
    &&& all_variations_have_data(variations@)
    &&& variation_skus(variations@).len() > 0
}

/// The record of an indexed object: the SKUs of its variations, and the
/// listing instance that points back to the object and carries the item's name.
pub open spec fn listing_record(listing: CatalogObject) -> (Seq<String>, ListingInstance) {
    let item = listing.item_data.unwrap();
    (
        variation_skus(item.variations.unwrap()@),
        ListingInstance {
            descriptor: ListingDescriptor::Square(
                SquareListingDescriptor { catalog_object_id: listing.id },
            ),
            title: Some(ListingTitleField { value: item.name.unwrap() }),
        },
    )
}

/// The records of the indexed objects among `objects`, in order.
pub open spec fn indexed_records(objects: Seq<CatalogObject>) -> Seq<(Seq<String>, ListingInstance)>
    decreases objects.len(),
{
    if objects.len() == 0 {
        Seq::empty()
    } else {
        let before = indexed_records(objects.drop_last());
        if listing_is_indexed(objects.last()) {
            before.push(listing_record(objects.last()))
        } else {
            before
        }
    }
}

/// A record with its descriptor taken by value.
pub open spec fn record_view(record: (GlobalListingDescriptor, ListingInstance)) -> (Seq<String>, ListingInstance) {
    (record.0@, record.1)
}

/// Turns a catalog object into the record of a tracked listing, or into
/// nothing when the object is not an item, when one of its variations carries
/// no variation data, or when none of its variations has a SKU.
pub fn process_listing(listing: CatalogObject) -> (res: Option<(GlobalListingDescriptor, ListingInstance)>)
    requires
        listing_processable(listing),
    ensures
        res is Some <==> listing_is_indexed(listing),
        res matches Some(record) ==> record_view(record) == listing_record(listing),
{
    let catalog_id = listing.id;
    let item = match listing.item_data {
        Some(item) => item,
        None => return None,
    };
    let CatalogItem { name, variations } = item;
    let variation_data = variations.unwrap();
    assert(variation_data == listing.item_data.unwrap().variations.unwrap());

    let mut global_descriptor: GlobalListingDescriptor = Vec::new();
    let mut i: usize = 0;
    while i < variation_data.len()
        invariant
            variation_data == listing.item_data.unwrap().variations.unwrap(),
            listing.item_data is Some,
            i <= variation_data@.len(),
            global_descriptor@ == variation_skus(variation_data@.take(i as int)),
            all_variations_have_data(variation_data@.take(i as int)),
        decreases variation_data@.len() - i,
    {
        assert(variation_data@.take(i + 1).drop_last() == variation_data@.take(i as int));
        match &variation_data[i].item_variation_data {
            None => {
                assert(!all_variations_have_data(variation_data@)) by {
                    assert(variation_data@[i as int].item_variation_data is None);
                }
                return None;
            },
            Some(data) => {
                if let Some(sku) = &data.sku {
                    global_descriptor.push(sku.clone());
                }
            },
        }
        i = i + 1;
        assert(all_variations_have_data(variation_data@.take(i as int))) by {
            assert forall|j: int| 0 <= j < i implies (#[trigger] variation_data@.take(i as int)[j]).item_variation_data is Some by {
                if j < i - 1 {
                    assert(variation_data@.take(i as int)[j] == variation_data@.take(i - 1)[j]);
                }
            }
        }
    }
    assert(variation_data@.take(variation_data@.len() as int) == variation_data@);
    if global_descriptor.len() == 0 {
        return None;
    }
    Some(
        (
            global_descriptor,
            ListingInstance {
                descriptor: ListingDescriptor::Square(
                    SquareListingDescriptor { catalog_object_id: catalog_id },
                ),
                title: Some(ListingTitleField { value: name.unwrap() }),
            },
        ),
    )
}

/// The variation carries a SKU.
pub open spec fn carries_sku(variation: CatalogObject) -> bool {
    variation.item_variation_data matches Some(data) && data.sku is Some
}

/// The SKU that a variation carries.
pub open spec fn sku_of(variation: CatalogObject) -> String {
    variation.item_variation_data.unwrap().sku.unwrap()
}

/// The SKUs of a list of variations are those of the variations that carry
/// one, each once, in the order of the variations.
pub proof fn lemma_variation_skus_are_the_carried_skus(variations: Seq<CatalogObject>)
    ensures
        variation_skus(variations) == variations.filter(|v: CatalogObject| carries_sku(v)).map_values(
            |v: CatalogObject| sku_of(v),
        ),
    decreases variations.len(),
{
    reveal_with_fuel(Seq::<CatalogObject>::filter, 1);
    if variations.len() > 0 {
        lemma_variation_skus_are_the_carried_skus(variations.drop_last());
        let carried = variations.drop_last().filter(|v: CatalogObject| carries_sku(v));
        assert(variations.filter(|v: CatalogObject| carries_sku(v)) == if carries_sku(variations.last()) {
            carried.push(variations.last())
        } else {
            carried
        });
        if carries_sku(variations.last()) {
            assert(carried.push(variations.last()).map_values(|v: CatalogObject| sku_of(v))
                =~= carried.map_values(|v: CatalogObject| sku_of(v)).push(sku_of(variations.last())));
        }
    }
}

/// The record of an indexed listing holds the SKU of every variation that
/// carries one, in the order of the variations and nothing else, points back to
/// the catalog object by its id, and has the item's whole name as its title.
pub proof fn lemma_listing_record_keeps_every_sku(listing: CatalogObject)
    requires
        listing_is_indexed(listing),
    ensures
        listing_record(listing).0 == listing.item_data.unwrap().variations.unwrap()@.filter(
            |v: CatalogObject| carries_sku(v),
        ).map_values(|v: CatalogObject| sku_of(v)),
        listing_record(listing).1.descriptor == ListingDescriptor::Square(
            SquareListingDescriptor { catalog_object_id: listing.id },
        ),
        listing_record(listing).1.title == Some(
            ListingTitleField { value: listing.item_data.unwrap().name.unwrap() },
        ),
{
    lemma_variation_skus_are_the_carried_skus(listing.item_data.unwrap().variations.unwrap()@);
}

/// Indexing a page gives the record of every indexed object on it, each once,
/// in the order of the page, and nothing else.
pub proof fn lemma_indexed_records_are_the_indexed_objects(objects: Seq<CatalogObject>)
    ensures
        indexed_records(objects) == objects.filter(|o: CatalogObject| listing_is_indexed(o)).map_values(
            |o: CatalogObject| listing_record(o),
        ),
    decreases objects.len(),
{
    reveal_with_fuel(Seq::<CatalogObject>::filter, 1);
    if objects.len() > 0 {
        lemma_indexed_records_are_the_indexed_objects(objects.drop_last());
        let kept = objects.drop_last().filter(|o: CatalogObject| listing_is_indexed(o));
        assert(objects.filter(|o: CatalogObject| listing_is_indexed(o)) == if listing_is_indexed(objects.last()) {
            kept.push(objects.last())
        } else {
            kept
        });
        if listing_is_indexed(objects.last()) {
            assert(kept.push(objects.last()).map_values(|o: CatalogObject| listing_record(o))
                =~= kept.map_values(|o: CatalogObject| listing_record(o)).push(listing_record(objects.last())));
        }
    }
}

/// Every object on the page can be processed.
pub open spec fn page_processable(response: ListCatalogResponse) -> bool {
    forall|i: int|
        0 <= i < response_objects(response).len() ==> listing_processable(
            #[trigger] response_objects(response)[i],
        )
}

/// Adds to `index` the records of the indexed objects on one page of the
/// catalog, in the order of the page, and returns the cursor of the next page;
/// there is none after the last page.
pub fn index_page(
    index: &mut Vec<(GlobalListingDescriptor, ListingInstance)>,
    response: ListCatalogResponse,
) -> (cursor: Option<String>)
    requires
        page_processable(response),
    ensures
        cursor == response.cursor,
        final(index)@.map_values(|r: (GlobalListingDescriptor, ListingInstance)| record_view(r))
            == old(index)@.map_values(|r: (GlobalListingDescriptor, ListingInstance)| record_view(r))
            + indexed_records(response_objects(response)),
{
    let ghost objects = response_objects(response);
    let ghost start = index@.map_values(|r: (GlobalListingDescriptor, ListingInstance)| record_view(r));
    let ListCatalogResponse { cursor, objects: page } = response;
    if let Some(page) = page {
        let mut remaining = page;
        let ghost consumed: int = 0;
        while remaining.len() > 0
            invariant
                0 <= consumed <= objects.len(),
                remaining@ == objects.skip(consumed),
                forall|i: int| 0 <= i < objects.len() ==> listing_processable(#[trigger] objects[i]),
                index@.map_values(|r: (GlobalListingDescriptor, ListingInstance)| record_view(r))
                    == start + indexed_records(objects.take(consumed)),
            decreases remaining@.len(),
        {
            let object = remaining.remove(0);
            let ghost before = index@;
            proof {
                assert(object == objects[consumed]);
                assert(objects.take(consumed + 1).drop_last() == objects.take(consumed));
                assert(objects.take(consumed + 1).last() == objects[consumed]);
                assert(remaining@ =~= objects.skip(consumed + 1));
            }
            match process_listing(object) {
                Some(record) => {
                    index.push(record);
                    assert(index@.map_values(|r: (GlobalListingDescriptor, ListingInstance)| record_view(r))
                        =~= before.map_values(|r: (GlobalListingDescriptor, ListingInstance)| record_view(r)).push(record_view(record)));
                },
                None => {},
            }
            proof {
                consumed = consumed + 1;
            }
            assert(index@.map_values(|r: (GlobalListingDescriptor, ListingInstance)| record_view(r))
                =~= start + indexed_records(objects.take(consumed)));
        }
        assert(objects.take(consumed) == objects);
    } else {
        assert(index@.map_values(|r: (GlobalListingDescriptor, ListingInstance)| record_view(r))
            =~= start + indexed_records(objects));
    }
    cursor
}

} // verus!
