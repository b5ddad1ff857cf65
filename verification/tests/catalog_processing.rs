use hifitime::Epoch;
use listing_sync::catalog::{CatalogItem, CatalogItemVariation, CatalogObject, ListCatalogResponse};
use listing_sync::descriptor::ListingDescriptor;
use listing_sync::square::{index_page, process_listing, SquareListingDescriptor};
use listing_sync::state::ListingTitleField;
use listing_sync::vendors::square::{SquareListingField, SquareQuery, SquareVendor};

fn variation(sku: Option<&str>) -> CatalogObject {
    CatalogObject {
        id: format!("var-{}", sku.unwrap_or("none")),
        item_data: None,
        item_variation_data: Some(CatalogItemVariation { sku: sku.map(|s| s.to_string()) }),
    }
}

fn bare_variation() -> CatalogObject {
    CatalogObject { id: "var-bare".to_string(), item_data: None, item_variation_data: None }
}

fn item(id: &str, name: Option<&str>, variations: Vec<CatalogObject>) -> CatalogObject {
    CatalogObject {
        id: id.to_string(),
        item_data: Some(CatalogItem {
            name: name.map(|s| s.to_string()),
            variations: Some(variations),
        }),
        item_variation_data: None,
    }
}

fn window() -> (Epoch, Epoch) {
    (
        Epoch::from_gregorian_utc_at_midnight(2024, 1, 1),
        Epoch::from_gregorian_utc_at_midnight(2024, 1, 2),
    )
}

#[test]
fn process_listing_collects_skus_in_order() {
    let object = item("OBJ1", Some("Mug"), vec![variation(Some("MUG-S")), variation(None), variation(Some("MUG-L"))]);
    let (descriptor, instance) = process_listing(object).expect("indexed");
    assert_eq!(descriptor, vec!["MUG-S".to_string(), "MUG-L".to_string()]);
    assert_eq!(
        instance.descriptor,
        ListingDescriptor::Square(SquareListingDescriptor { catalog_object_id: "OBJ1".to_string() })
    );
    assert_eq!(instance.title, Some(ListingTitleField { value: "Mug".to_string() }));
}

#[test]
fn process_listing_ignores_objects_that_are_not_items() {
    let object = variation(Some("LOOSE"));
    assert!(process_listing(object).is_none());
}

#[test]
fn process_listing_ignores_items_without_skus() {
    let object = item("OBJ2", Some("Untracked"), vec![variation(None)]);
    assert!(process_listing(object).is_none());
}

#[test]
fn process_listing_ignores_items_with_a_bare_variation() {
    let object = item("OBJ3", Some("Partial"), vec![variation(Some("P-1")), bare_variation()]);
    assert!(process_listing(object).is_none());
}

#[test]
fn process_listing_accepts_unnamed_item_without_skus() {
    // The name is only required of items that end up tracked.
    let object = item("OBJ4", None, vec![variation(None)]);
    assert!(process_listing(object).is_none());
}

#[test]
fn index_page_appends_indexed_records_and_returns_cursor() {
    let mut index = Vec::new();
    let page = ListCatalogResponse {
        cursor: Some("next".to_string()),
        objects: Some(vec![
            item("A", Some("Alpha"), vec![variation(Some("A-1"))]),
            item("B", Some("Beta"), vec![variation(None)]),
            item("C", Some("Gamma"), vec![variation(Some("C-1")), variation(Some("C-2"))]),
        ]),
    };
    let cursor = index_page(&mut index, page);
    assert_eq!(cursor, Some("next".to_string()));
    assert_eq!(index.len(), 2);
    assert_eq!(index[0].0, vec!["A-1".to_string()]);
    assert_eq!(index[1].0, vec!["C-1".to_string(), "C-2".to_string()]);
    assert_eq!(index[1].1.title, Some(ListingTitleField { value: "Gamma".to_string() }));

    let last = ListCatalogResponse { cursor: None, objects: None };
    let cursor = index_page(&mut index, last);
    assert_eq!(cursor, None);
    assert_eq!(index.len(), 2);
}

#[test]
fn find_listing_descriptor_keeps_skus_of_variations() {
    let object = item("D", Some("Delta"), vec![variation(Some("D-1")), variation(None), variation(Some("D-3"))]);
    let descriptor = SquareVendor::find_listing_descriptor(object.item_data.as_ref().unwrap());
    assert_eq!(descriptor.sku, vec!["D-1".to_string(), "D-3".to_string()]);
}

#[test]
fn find_listing_descriptor_of_item_without_skus_is_empty() {
    let object = item("E", Some("Echo"), vec![variation(None)]);
    let descriptor = SquareVendor::find_listing_descriptor(object.item_data.as_ref().unwrap());
    assert!(descriptor.sku.is_empty());
}

#[test]
fn process_catalog_item_gives_the_title() {
    let object = item("F", Some("Foxtrot"), vec![variation(Some("F-1"))]);
    let fields = SquareVendor::process_catalog_item(window(), object.item_data.as_ref().unwrap());
    assert_eq!(fields, vec![(SquareListingField::Title, "Foxtrot".to_string())]);
}

#[test]
fn query_processing_follows_page_order() {
    let query = SquareQuery {
        at: window(),
        response: ListCatalogResponse {
            cursor: None,
            objects: Some(vec![
                item("G", Some("Golf"), vec![variation(Some("G-1"))]),
                item("H", Some("Hotel"), vec![variation(Some("H-1")), variation(Some("H-2"))]),
            ]),
        },
    };
    let mapping = SquareVendor::build_mapping_from_list_catalog_query(&query);
    assert_eq!(mapping.len(), 2);
    assert_eq!(mapping[0].0, "G");
    assert_eq!(mapping[0].1.sku, vec!["G-1".to_string()]);
    assert_eq!(mapping[1].0, "H");
    assert_eq!(mapping[1].1.sku, vec!["H-1".to_string(), "H-2".to_string()]);

    let state = SquareVendor::process_list_catalog_query(&query);
    assert_eq!(
        state,
        vec![
            ("G".to_string(), vec![(SquareListingField::Title, "Golf".to_string())]),
            ("H".to_string(), vec![(SquareListingField::Title, "Hotel".to_string())]),
        ]
    );
}

#[test]
fn query_processing_of_empty_page_is_empty() {
    let query = SquareQuery { at: window(), response: ListCatalogResponse { cursor: None, objects: None } };
    assert!(SquareVendor::build_mapping_from_list_catalog_query(&query).is_empty());
    assert!(SquareVendor::process_list_catalog_query(&query).is_empty());
}

#[test]
fn build_mapping_does_not_need_a_name() {
    let query = SquareQuery {
        at: window(),
        response: ListCatalogResponse {
            cursor: None,
            objects: Some(vec![item("U", None, vec![variation(Some("U-1")), variation(None)])]),
        },
    };
    let mapping = SquareVendor::build_mapping_from_list_catalog_query(&query);
    assert_eq!(mapping.len(), 1);
    assert_eq!(mapping[0].0, "U");
    assert_eq!(mapping[0].1.sku, vec!["U-1".to_string()]);
}
