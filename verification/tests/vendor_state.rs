use hifitime::Epoch;
use listing_sync::catalog::{CatalogItem, CatalogItemVariation, CatalogObject, ListCatalogResponse};
use listing_sync::data::{Action, EntityDescriptor, Observation};
use listing_sync::models::listing::ListingField;
use listing_sync::vendors::square::{SquareConfig, SquareListingField, SquareQuery, SquareVendor};

fn item(id: &str, name: &str, skus: &[&str]) -> CatalogObject {
    CatalogObject {
        id: id.to_string(),
        item_data: Some(CatalogItem {
            name: Some(name.to_string()),
            variations: Some(
                skus.iter()
                    .map(|sku| CatalogObject {
                        id: format!("{}-var", sku),
                        item_data: None,
                        item_variation_data: Some(CatalogItemVariation { sku: Some(sku.to_string()) }),
                    })
                    .collect(),
            ),
        }),
        item_variation_data: None,
    }
}

fn window(day: u8) -> (Epoch, Epoch) {
    (
        Epoch::from_gregorian_utc_hms(2024, 3, day, 10, 0, 0),
        Epoch::from_gregorian_utc_hms(2024, 3, day, 10, 0, 1),
    )
}

fn query(day: u8, objects: Vec<CatalogObject>) -> SquareQuery<ListCatalogResponse> {
    SquareQuery { at: window(day), response: ListCatalogResponse { cursor: None, objects: Some(objects) } }
}

fn vendor() -> SquareVendor {
    SquareVendor::new("shop".to_string(), SquareConfig { token: "SECRET-REDACTED".to_string() })
}

fn observe(vendor: &mut SquareVendor, query: &SquareQuery<ListCatalogResponse>) -> Vec<Observation> {
    let changes = vendor.observe_page(query);
    changes
        .iter()
        .map(|(id, field)| {
            assert!(vendor.listing_mapping.get(id).is_some(), "Should be in mapping!");
            vendor.observation_for(id, *field, query.at)
        })
        .collect()
}

fn title_of(vendor: &SquareVendor, id: &str) -> (String, (Epoch, Epoch)) {
    let fields = vendor.listing_state.get(&id.to_string()).expect("tracked listing");
    let state = fields.get(&SquareListingField::Title).expect("tracked title");
    (state.last_value.clone(), state.last_updated)
}

#[test]
fn new_vendor_tracks_nothing() {
    let vendor = vendor();
    assert_eq!(vendor.name, "shop");
    assert_eq!(vendor.config.token, "SECRET-REDACTED");
    assert!(vendor.listing_state.get(&"A".to_string()).is_none());
    assert!(vendor.listing_mapping.get(&"A".to_string()).is_none());
}

#[test]
fn initialise_records_mapping_and_titles() {
    let mut vendor = vendor();
    vendor.initialise_page(&query(1, vec![item("A", "Alpha", &["A-1", "A-2"]), item("B", "Beta", &["B-1"])]));
    assert_eq!(vendor.listing_mapping.get(&"A".to_string()).unwrap().sku, vec!["A-1".to_string(), "A-2".to_string()]);
    assert_eq!(vendor.listing_mapping.get(&"B".to_string()).unwrap().sku, vec!["B-1".to_string()]);
    assert_eq!(title_of(&vendor, "A"), ("Alpha".to_string(), window(1)));
    assert_eq!(title_of(&vendor, "B"), ("Beta".to_string(), window(1)));
}

#[test]
fn initialise_over_two_pages_keeps_both() {
    let mut vendor = vendor();
    vendor.initialise_page(&query(1, vec![item("A", "Alpha", &["A-1"])]));
    vendor.initialise_page(&query(2, vec![item("B", "Beta", &["B-1"])]));
    assert_eq!(title_of(&vendor, "A"), ("Alpha".to_string(), window(1)));
    assert_eq!(title_of(&vendor, "B"), ("Beta".to_string(), window(2)));
}

#[test]
fn reobserving_an_unchanged_page_reports_nothing() {
    let mut vendor = vendor();
    let page = vec![item("A", "Alpha", &["A-1"]), item("B", "Beta", &["B-1"])];
    vendor.initialise_page(&query(1, page));
    let again = vec![item("A", "Alpha", &["A-1"]), item("B", "Beta", &["B-1"])];
    let observations = observe(&mut vendor, &query(2, again));
    assert!(observations.is_empty());
    // The window of the last poll is recorded even when nothing changed.
    assert_eq!(title_of(&vendor, "A"), ("Alpha".to_string(), window(2)));
    assert_eq!(title_of(&vendor, "B"), ("Beta".to_string(), window(2)));
}

#[test]
fn a_changed_title_is_reported_as_an_assignment() {
    let mut vendor = vendor();
    vendor.initialise_page(&query(1, vec![item("A", "Alpha", &["A-1"]), item("B", "Beta", &["B-1"])]));
    let observations =
        observe(&mut vendor, &query(2, vec![item("A", "Alpha", &["A-1"]), item("B", "Bravo", &["B-1"])]));
    assert_eq!(observations.len(), 1);
    let observation = &observations[0];
    match &observation.subject {
        EntityDescriptor::ListingField((descriptor, field)) => {
            assert_eq!(descriptor.sku, vec!["B-1".to_string()]);
            assert_eq!(*field, ListingField::Title);
        }
    }
    assert_eq!(observation.at, window(2));
    assert_eq!(observation.source, "shop");
    assert_eq!(observation.action, Action::Assignment);
    assert_eq!(title_of(&vendor, "B"), ("Bravo".to_string(), window(2)));
    assert_eq!(title_of(&vendor, "A"), ("Alpha".to_string(), window(2)));

    // Observing the same page once more reports nothing new.
    let observations =
        observe(&mut vendor, &query(3, vec![item("A", "Alpha", &["A-1"]), item("B", "Bravo", &["B-1"])]));
    assert!(observations.is_empty());
}

#[test]
fn changes_are_reported_in_page_order() {
    let mut vendor = vendor();
    vendor.initialise_page(&query(1, vec![item("A", "Alpha", &["A-1"]), item("B", "Beta", &["B-1"])]));
    let observations =
        observe(&mut vendor, &query(2, vec![item("B", "Bravo", &["B-1"]), item("A", "Apple", &["A-1"])]));
    assert_eq!(observations.len(), 2);
    let skus: Vec<Vec<String>> = observations
        .iter()
        .map(|o| match &o.subject {
            EntityDescriptor::ListingField((descriptor, _)) => descriptor.sku.clone(),
        })
        .collect();
    assert_eq!(skus, vec![vec!["B-1".to_string()], vec!["A-1".to_string()]]);
}

#[test]
fn a_listing_seen_twice_on_a_page_is_compared_with_its_latest_value() {
    let mut vendor = vendor();
    vendor.initialise_page(&query(1, vec![item("A", "Alpha", &["A-1"])]));
    let observations = observe(&mut vendor, &query(
        2,
        vec![item("A", "Apple", &["A-1"]), item("A", "Apple", &["A-1"]), item("A", "Alpha", &["A-1"])],
    ));
    // Alpha -> Apple, then Apple again (no change), then back to Alpha.
    assert_eq!(observations.len(), 2);
    assert_eq!(title_of(&vendor, "A"), ("Alpha".to_string(), window(2)));
}

#[test]
fn square_field_converts_to_listing_field() {
    assert_eq!(ListingField::from(SquareListingField::Title), ListingField::Title);
    let field: ListingField = SquareListingField::Title.into();
    assert_eq!(field, ListingField::Title);
}

#[test]
fn observe_page_reports_changed_fields_by_id() {
    let mut vendor = vendor();
    vendor.initialise_page(&query(1, vec![item("A", "Alpha", &["A-1"]), item("B", "Beta", &["B-1"])]));
    let changes = vendor.observe_page(&query(2, vec![item("A", "Apple", &["A-1"]), item("B", "Beta", &["B-1"])]));
    assert_eq!(changes, vec![("A".to_string(), SquareListingField::Title)]);
    // The descriptors are left as they were.
    assert_eq!(vendor.listing_mapping.get(&"A".to_string()).unwrap().sku, vec!["A-1".to_string()]);
}

#[test]
fn observation_for_names_descriptor_field_window_and_source() {
    let mut vendor = vendor();
    vendor.initialise_page(&query(1, vec![item("C", "Charlie", &["C-1", "C-2"])]));
    let observation = vendor.observation_for(&"C".to_string(), SquareListingField::Title, window(4));
    match &observation.subject {
        EntityDescriptor::ListingField((descriptor, field)) => {
            assert_eq!(descriptor.sku, vec!["C-1".to_string(), "C-2".to_string()]);
            assert_eq!(*field, ListingField::Title);
        }
    }
    assert_eq!(observation.at, window(4));
    assert_eq!(observation.source, "shop");
    assert_eq!(observation.action, Action::Assignment);
}

#[test]
fn a_pass_listing_an_id_twice_with_one_name_repeats_without_changes() {
    let mut vendor = vendor();
    vendor.initialise_page(&query(1, vec![item("A", "Alpha", &["A-1"]), item("B", "Beta", &["B-1"])]));
    vendor.initialise_page(&query(2, vec![item("A", "Alpha", &["A-1"]), item("C", "Charlie", &["C-1"])]));
    let first = observe(&mut vendor, &query(3, vec![item("A", "Alpha", &["A-1"]), item("B", "Beta", &["B-1"])]));
    let second = observe(&mut vendor, &query(4, vec![item("A", "Alpha", &["A-1"]), item("C", "Charlie", &["C-1"])]));
    assert!(first.is_empty());
    assert!(second.is_empty());
    assert_eq!(title_of(&vendor, "A"), ("Alpha".to_string(), window(4)));
    assert_eq!(title_of(&vendor, "B"), ("Beta".to_string(), window(3)));
    assert_eq!(title_of(&vendor, "C"), ("Charlie".to_string(), window(4)));
}

#[test]
fn observing_a_page_of_an_earlier_initialising_page_succeeds() {
    let mut vendor = vendor();
    vendor.initialise_page(&query(1, vec![item("A", "Alpha", &["A-1"])]));
    vendor.initialise_page(&query(2, vec![item("B", "Beta", &["B-1"])]));
    let observations = observe(&mut vendor, &query(3, vec![item("A", "Apex", &["A-1"])]));
    assert_eq!(observations.len(), 1);
    match &observations[0].subject {
        EntityDescriptor::ListingField((descriptor, _)) => assert_eq!(descriptor.sku, vec!["A-1".to_string()]),
    }
}
