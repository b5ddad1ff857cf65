use vstd::prelude::*;

verus! {

/// An object of a vendor's catalog, as far as listings are concerned: its
/// identifier, and the data it carries when it is an item or a variation.
#[derive(Debug)]
pub struct CatalogObject {
    pub id: String,
    pub item_data: Option<CatalogItem>,
    pub item_variation_data: Option<CatalogItemVariation>,
}

/// The data of a catalog item: its name and its variations, each of which is a
/// catalog object of its own.
#[derive(Debug)]
pub struct CatalogItem {
    pub name: Option<String>,
    pub variations: Option<Vec<CatalogObject>>,
}

/// The data of an item variation.
#[derive(Debug)]
pub struct CatalogItemVariation {
    pub sku: Option<String>,
}

/// One page of a catalog listing: the objects on it, and the cursor that asks
/// for the next page, absent on the last one.
#[derive(Debug)]
pub struct ListCatalogResponse {
    pub cursor: Option<String>,
    pub objects: Option<Vec<CatalogObject>>,
}

/// The objects on a page; a page without objects has none.
pub open spec fn response_objects(response: ListCatalogResponse) -> Seq<CatalogObject> {
    match response.objects {
        Some(objects) => objects@,
        None => Seq::empty(),
    }
}

/// Every variation carries variation data.
pub open spec fn all_variations_have_data(variations: Seq<CatalogObject>) -> bool {
    forall|i: int| 0 <= i < variations.len() ==> (#[trigger] variations[i]).item_variation_data is Some
}

/// The SKUs of the variations that carry one, in the order of the variations.
pub open spec fn variation_skus(variations: Seq<CatalogObject>) -> Seq<String>
    decreases variations.len(),
{
    if variations.len() == 0 {
        Seq::empty()
    } else {
        let before = variation_skus(variations.drop_last());
        match variations.last().item_variation_data {
            Some(data) => match data.sku {
                Some(sku) => before.push(sku),
                None => before,
            },
            None => before,
        }
    }
}

} // verus!
