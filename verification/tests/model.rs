use hifitime::Epoch;
use listing_sync::keyed::KeyedMap;
use listing_sync::models::listing::ListingDescriptor;
use listing_sync::poll::{tag_with_vendor, Poll};
use listing_sync::state::ListingTitleField;
use uuid::Uuid;

#[test]
fn keyed_map_insert_get_and_replace() {
    let mut map: KeyedMap<String, ListingDescriptor> = KeyedMap::new();
    assert!(map.get(&"x".to_string()).is_none());
    assert!(map.find(&"x".to_string()).is_none());
    map.insert("x".to_string(), ListingDescriptor { sku: vec!["1".to_string()] });
    map.insert("y".to_string(), ListingDescriptor { sku: vec!["2".to_string()] });
    map.insert("x".to_string(), ListingDescriptor { sku: vec!["3".to_string()] });
    assert_eq!(map.get(&"x".to_string()).unwrap().sku, vec!["3".to_string()]);
    assert_eq!(map.get(&"y".to_string()).unwrap().sku, vec!["2".to_string()]);
    let slot = map.find(&"y".to_string()).unwrap();
    let previous = map.replace_at(slot, ListingDescriptor { sku: vec![] });
    assert_eq!(previous.sku, vec!["2".to_string()]);
    assert!(map.get(&"y".to_string()).unwrap().sku.is_empty());
}

#[test]
fn listing_descriptor_clone_is_equal() {
    let descriptor = ListingDescriptor { sku: vec!["a".to_string(), "b".to_string()] };
    let copy = descriptor.clone();
    assert_eq!(copy, descriptor);
}

#[test]
fn title_clone_value_copies_text() {
    let title = ListingTitleField { value: "Mug".to_string() };
    assert_eq!(title.clone_value(), "Mug");
}

#[test]
fn tag_with_vendor_keeps_order_and_tags_each_state() {
    let id = Uuid::from_u128(0x1234);
    let tagged = tag_with_vendor(id, vec![("g1", 10u32), ("g2", 20u32)]);
    assert_eq!(tagged, vec![("g1", id, 10u32), ("g2", id, 20u32)]);
    let empty: Vec<(&str, Uuid, u32)> = tag_with_vendor(id, Vec::<(&str, u32)>::new());
    assert!(empty.is_empty());
}

#[test]
fn poll_holds_its_window() {
    let sent = Epoch::from_gregorian_utc_at_midnight(2024, 5, 1);
    let received = Epoch::from_gregorian_utc_at_midnight(2024, 5, 2);
    let poll = Poll { value: 7u8, sent, received };
    assert_eq!(poll.value, 7);
    assert!(poll.sent < poll.received);
}
