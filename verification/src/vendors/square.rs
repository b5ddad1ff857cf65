use vstd::prelude::*;
use crate::catalog::{
    all_variations_have_data, response_objects, variation_skus, CatalogItem, CatalogObject,
    ListCatalogResponse,
};
use crate::data::{is_assignment_of, Action, EntityDescriptor, Observation, Window};
use crate::keyed::{KeyedMap, MapKey};
use crate::models::listing::{ListingDescriptor, ListingField};
use crate::square::{carries_sku, lemma_variation_skus_are_the_carried_skus, sku_of};

verus! {

/// What a Square vendor is configured with.
#[derive(Debug)]
pub struct SquareConfig {
    pub token: String,
}

/// A field of a Square listing whose value is tracked.
#[derive(Debug, Clone, Copy, Hash, PartialEq, Eq, Structural)]
pub enum SquareListingField {
    Title,
}

impl View for SquareListingField {
    type V = SquareListingField;

    open spec fn view(&self) -> SquareListingField {
        *self
    }
}

impl MapKey for SquareListingField {
    fn same_key(&self, other: &SquareListingField) -> (res: bool) {
        match (self, other) {
            (SquareListingField::Title, SquareListingField::Title) => true,
        }
    }
}

/// The listing field that a Square field stands for.
pub open spec fn listing_field_of(field: SquareListingField) -> ListingField {
    match field {
        SquareListingField::Title => ListingField::Title,
    }
}

impl From<SquareListingField> for ListingField {
    fn from(value: SquareListingField) -> (res: ListingField) {
        match value {
            SquareListingField::Title => ListingField::Title,
        }
    }
}

impl vstd::std_specs::convert::FromSpecImpl<SquareListingField> for ListingField {
    open spec fn obeys_from_spec() -> bool {
        true
    }

    open spec fn from_spec(v: SquareListingField) -> ListingField {
        listing_field_of(v)
    }
}

/// The last value seen of a field, and the window of the last poll that saw it.
#[derive(Debug)]
pub struct SquareState {
    pub last_updated: Window,
    pub last_value: String,
}

impl View for SquareState {
    type V = (Window, Seq<char>);

    open spec fn view(&self) -> (Window, Seq<char>) {
        (self.last_updated, self.last_value@)
    }
}

/// The answer to a request, with the window in which it was made.
#[derive(Debug)]
pub struct SquareQuery<T> {
    pub at: Window,
    pub response: T,
}

/// What is known of the fields of one listing.
pub type FieldStates = KeyedMap<SquareListingField, SquareState>;

/// The fields of one listing on a page, with their values.
pub type FieldValues = Seq<(SquareListingField, Seq<char>)>;

/// What is known of the fields of every tracked listing, by catalog object id.
pub type ListingStates = Map<Seq<char>, Map<SquareListingField, (Window, Seq<char>)>>;

/// The state that a Square vendor keeps between polls of the catalog.
pub struct SquareVendor {
    pub name: String,
    pub config: SquareConfig,
    pub listing_state: KeyedMap<String, FieldStates>,
    pub listing_mapping: KeyedMap<String, ListingDescriptor>,
}

/// The object is an item with a name.
pub open spec fn object_has_named_item(object: CatalogObject) -> bool {
    object.item_data matches Some(item) && item.name is Some
}

/// The object is an item with variations, all of which carry variation data.
pub open spec fn object_is_described(object: CatalogObject) -> bool {
    &&& object.item_data is Some
    &&& object.item_data.unwrap().variations matches Some(variations)
    &&& all_variations_have_data(variations@)
}

/// The object is an item with a name whose variations all carry variation data.
pub open spec fn object_is_complete(object: CatalogObject) -> bool {
    &&& object_has_named_item(object)
    &&& object_is_described(object)
}

/// Every object on the page is an item with a name.
pub open spec fn page_has_named_items(response: ListCatalogResponse) -> bool {
    forall|i: int|
        0 <= i < response_objects(response).len() ==> object_has_named_item(
            #[trigger] response_objects(response)[i],
        )
}

/// Every object on the page is an item whose variations all carry variation data.
pub open spec fn page_has_described_items(response: ListCatalogResponse) -> bool {
    forall|i: int|
        0 <= i < response_objects(response).len() ==> object_is_described(
            #[trigger] response_objects(response)[i],
        )
}

/// Every object on the page is complete.
pub open spec fn page_is_complete(response: ListCatalogResponse) -> bool {
    forall|i: int|
        0 <= i < response_objects(response).len() ==> object_is_complete(
            #[trigger] response_objects(response)[i],
        )
}

/// The tracked fields of an item: its title.
pub open spec fn item_fields(item: CatalogItem) -> FieldValues {
    seq![(SquareListingField::Title, item.name.unwrap()@)]
}

/// The descriptor of an item: the SKUs of its variations.
pub open spec fn item_descriptor(item: CatalogItem) -> Seq<Seq<char>> {
    variation_skus(item.variations.unwrap()@).map_values(|s: String| s@)
}

/// The tracked fields of every object on a page, by object id, in order.
pub open spec fn page_fields(objects: Seq<CatalogObject>) -> Seq<(Seq<char>, FieldValues)> {
    objects.map_values(|o: CatalogObject| (o.id@, item_fields(o.item_data.unwrap())))
}

/// The descriptor of every object on a page, by object id, in order.
pub open spec fn page_mapping(objects: Seq<CatalogObject>) -> Seq<(Seq<char>, Seq<Seq<char>>)> {
    objects.map_values(|o: CatalogObject| (o.id@, item_descriptor(o.item_data.unwrap())))
}

pub open spec fn field_values_view(fields: Seq<(SquareListingField, String)>) -> FieldValues {
    fields.map_values(|p: (SquareListingField, String)| (p.0, p.1@))
}

pub open spec fn listing_values_view(
    listings: Seq<(String, Vec<(SquareListingField, String)>)>,
) -> Seq<(Seq<char>, FieldValues)> {
    listings.map_values(
        |p: (String, Vec<(SquareListingField, String)>)| (p.0@, field_values_view(p.1@)),
    )
}

pub open spec fn mapping_view(mapping: Seq<(String, ListingDescriptor)>) -> Seq<(Seq<char>, Seq<Seq<char>>)> {
    mapping.map_values(|p: (String, ListingDescriptor)| (p.0@, p.1@))
}

/// What is known of the fields of a listing; nothing when it is not tracked.
pub open spec fn tracked_fields(states: ListingStates, id: Seq<char>) -> Map<SquareListingField, (Window, Seq<char>)> {
    if states.contains_key(id) {
        states[id]
    } else {
        Map::empty()
    }
}

/// The fields of a listing after recording, in order, the values seen within `at`.
pub open spec fn record_fields(
    fields: Map<SquareListingField, (Window, Seq<char>)>,
    values: FieldValues,
    at: Window,
) -> Map<SquareListingField, (Window, Seq<char>)>
    decreases values.len(),
{
    if values.len() == 0 {
        fields
    } else {
        record_fields(fields, values.drop_last(), at).insert(values.last().0, (at, values.last().1))
    }
}

/// The listings after recording, in order, the fields of the listings on a
/// page seen within `at`; a listing seen for the first time is tracked from then on.
pub open spec fn record_listings(
    states: ListingStates,
    listings: Seq<(Seq<char>, FieldValues)>,
    at: Window,
) -> ListingStates
    decreases listings.len(),
{
    if listings.len() == 0 {
        states
    } else {
        let before = record_listings(states, listings.drop_last(), at);
        let id = listings.last().0;
        before.insert(id, record_fields(tracked_fields(before, id), listings.last().1, at))
    }
}

/// The mapping from object ids to descriptors after recording, in order, the
/// descriptors on a page.
pub open spec fn record_mapping(
    mapping: Map<Seq<char>, Seq<Seq<char>>>,
    entries: Seq<(Seq<char>, Seq<Seq<char>>)>,
) -> Map<Seq<char>, Seq<Seq<char>>>
    decreases entries.len(),
{
    if entries.len() == 0 {
        mapping
    } else {
        record_mapping(mapping, entries.drop_last()).insert(entries.last().0, entries.last().1)
    }
}

/// The fields of a listing whose value on the page differs from the value known
/// when the page is read up to it, in the order of the page.
pub open spec fn field_changes(
    fields: Map<SquareListingField, (Window, Seq<char>)>,
    values: FieldValues,
    at: Window,
) -> Seq<SquareListingField>
    decreases values.len(),
{
    if values.len() == 0 {
        Seq::empty()
    } else {
        let before = field_changes(fields, values.drop_last(), at);
        if record_fields(fields, values.drop_last(), at)[values.last().0].1 != values.last().1 {
            before.push(values.last().0)
        } else {
            before
        }
    }
}

/// The changes of one listing, each as the listing's id and the changed field.
pub open spec fn listing_field_changes(
    id: Seq<char>,
    fields: Map<SquareListingField, (Window, Seq<char>)>,
    values: FieldValues,
    at: Window,
) -> Seq<(Seq<char>, SquareListingField)> {
    field_changes(fields, values, at).map_values(|f: SquareListingField| (id, f))
}

/// The changes that a page shows against what is known, in the order of the page.
pub open spec fn listing_changes(
    states: ListingStates,
    listings: Seq<(Seq<char>, FieldValues)>,
    at: Window,
) -> Seq<(Seq<char>, SquareListingField)>
    decreases listings.len(),
{
    if listings.len() == 0 {
        Seq::empty()
    } else {
        let before = record_listings(states, listings.drop_last(), at);
        let id = listings.last().0;
        listing_changes(states, listings.drop_last(), at) + listing_field_changes(
            id,
            tracked_fields(before, id),
            listings.last().1,
            at,
        )
    }
}

/// The field of the listing is tracked.
pub open spec fn field_is_tracked(states: ListingStates, id: Seq<char>, field: SquareListingField) -> bool {
    states.contains_key(id) && states[id].contains_key(field)
}

/// Every field of every listing on the page is already tracked.
pub open spec fn page_is_tracked(states: ListingStates, listings: Seq<(Seq<char>, FieldValues)>) -> bool {
    forall|i: int, j: int|
        #![trigger listings[i].1[j]]
        0 <= i < listings.len() && 0 <= j < listings[i].1.len() ==> field_is_tracked(
            states,
            listings[i].0,
            listings[i].1[j].0,
        )
}

/// Every changed listing has a descriptor.
pub open spec fn changes_are_mapped(
    mapping: Map<Seq<char>, Seq<Seq<char>>>,
    changes: Seq<(Seq<char>, SquareListingField)>,
) -> bool {
    forall|k: int| 0 <= k < changes.len() ==> mapping.contains_key(#[trigger] changes[k].0)
}

/// Changes with their listing ids taken by value.
pub open spec fn changes_view(changes: Seq<(String, SquareListingField)>) -> Seq<(Seq<char>, SquareListingField)> {
    changes.map_values(|c: (String, SquareListingField)| (c.0@, c.1))
}

proof fn lemma_record_fields_keeps(
    fields: Map<SquareListingField, (Window, Seq<char>)>,
    values: FieldValues,
    at: Window,
    field: SquareListingField,
)
    requires
        fields.contains_key(field),
    ensures
        record_fields(fields, values, at).contains_key(field),
    decreases values.len(),
{
    if values.len() > 0 {
        lemma_record_fields_keeps(fields, values.drop_last(), at, field);
    }
}

proof fn lemma_record_listings_keeps(
    states: ListingStates,
    listings: Seq<(Seq<char>, FieldValues)>,
    at: Window,
    id: Seq<char>,
    field: SquareListingField,
)
    requires
        states.contains_key(id),
        states[id].contains_key(field),
    ensures
        record_listings(states, listings, at).contains_key(id),
        record_listings(states, listings, at)[id].contains_key(field),
    decreases listings.len(),
{
    if listings.len() > 0 {
        let before = record_listings(states, listings.drop_last(), at);
        lemma_record_listings_keeps(states, listings.drop_last(), at, id, field);
        if listings.last().0 == id {
            lemma_record_fields_keeps(tracked_fields(before, id), listings.last().1, at, field);
        }
    }
}

/// Ids of the listings on a page are distinct, and so are the fields within
/// each listing.
pub open spec fn page_is_distinct(listings: Seq<(Seq<char>, FieldValues)>) -> bool {
    &&& forall|a: int, b: int|
        #![trigger listings[a], listings[b]]
        0 <= a < listings.len() && 0 <= b < listings.len() && a != b ==> listings[a].0 != listings[b].0
    &&& forall|i: int| 0 <= i < listings.len() ==> fields_are_distinct(#[trigger] listings[i].1)
}

/// The fields of a listing on a page are distinct.
pub open spec fn fields_are_distinct(values: FieldValues) -> bool {
    forall|a: int, b: int|
        #![trigger values[a], values[b]]
        0 <= a < values.len() && 0 <= b < values.len() && a != b ==> values[a].0 != values[b].0
}

/// The field of the listing is tracked with the value `value`.
pub open spec fn field_agrees(
    states: ListingStates,
    id: Seq<char>,
    field: SquareListingField,
    value: Seq<char>,
) -> bool {
    field_is_tracked(states, id, field) && states[id][field].1 == value
}

/// Every value on the page is the value already known of its field.
pub open spec fn page_agrees(states: ListingStates, listings: Seq<(Seq<char>, FieldValues)>) -> bool {
    forall|i: int, j: int|
        #![trigger listings[i].1[j]]
        0 <= i < listings.len() && 0 <= j < listings[i].1.len() ==> field_agrees(
            states,
            listings[i].0,
            listings[i].1[j].0,
            listings[i].1[j].1,
        )
}

proof fn lemma_record_fields_has(
    fields: Map<SquareListingField, (Window, Seq<char>)>,
    values: FieldValues,
    at: Window,
    j: int,
)
    requires
        0 <= j < values.len(),
    ensures
        record_fields(fields, values, at).contains_key(values[j].0),
    decreases values.len(),
{
    if j < values.len() - 1 {
        lemma_record_fields_has(fields, values.drop_last(), at, j);
        assert(values.drop_last()[j] == values[j]);
    }
}

/// Recording a page tracks every field of every listing on it: once a page
/// has been recorded, in particular by `SquareVendor::initialise_page`,
/// `SquareVendor::observe_page` finds every field of that page tracked.
pub proof fn lemma_recorded_page_is_tracked(
    states: ListingStates,
    listings: Seq<(Seq<char>, FieldValues)>,
    at: Window,
)
    ensures
        page_is_tracked(record_listings(states, listings, at), listings),
    decreases listings.len(),
{
    if listings.len() > 0 {
        let init = listings.drop_last();
        let before = record_listings(states, init, at);
        let last = listings.last();
        lemma_recorded_page_is_tracked(states, init, at);
        let after = record_listings(states, listings, at);
        assert forall|i: int, j: int|
            #![trigger listings[i].1[j]]
            0 <= i < listings.len() && 0 <= j < listings[i].1.len() implies field_is_tracked(
            after,
            listings[i].0,
            listings[i].1[j].0,
        ) by {
            if i == listings.len() - 1 {
                assert(listings[i] == last);
                lemma_record_fields_has(tracked_fields(before, last.0), last.1, at, j);
            } else {
                assert(init[i] == listings[i]);
                assert(init[i].1[j] == listings[i].1[j]);
                assert(before.contains_key(init[i].0) && before[init[i].0].contains_key(init[i].1[j].0));
                if last.0 == listings[i].0 {
                    lemma_record_fields_keeps(tracked_fields(before, last.0), last.1, at, listings[i].1[j].0);
                }
            }
        }
        assert(page_is_tracked(after, listings));
    }
}

/// Recording the descriptors of a page maps every object id on it.
pub proof fn lemma_recorded_mapping_has(
    mapping: Map<Seq<char>, Seq<Seq<char>>>,
    entries: Seq<(Seq<char>, Seq<Seq<char>>)>,
    k: int,
)
    requires
        0 <= k < entries.len(),
    ensures
        record_mapping(mapping, entries).contains_key(entries[k].0),
    decreases entries.len(),
{
    if k < entries.len() - 1 {
        lemma_recorded_mapping_has(mapping, entries.drop_last(), k);
        assert(entries.drop_last()[k] == entries[k]);
    }
}

proof fn lemma_changes_come_from_page(
    states: ListingStates,
    listings: Seq<(Seq<char>, FieldValues)>,
    at: Window,
    k: int,
)
    requires
        0 <= k < listing_changes(states, listings, at).len(),
    ensures
        exists|i: int| 0 <= i < listings.len() && (#[trigger] listings[i]).0 == listing_changes(states, listings, at)[k].0,
    decreases listings.len(),
{
    let init = listings.drop_last();
    let prefix = listing_changes(states, init, at);
    if k < prefix.len() {
        lemma_changes_come_from_page(states, init, at, k);
        let i = choose|i: int| 0 <= i < init.len() && (#[trigger] init[i]).0 == prefix[k].0;
        assert(listings[i] == init[i]);
    } else {
        let i = listings.len() - 1;
        assert(listings[i] == listings.last());
    }
}

/// The pages of one pass over the catalog, in order, each with the window in
/// which it was read.
pub type Pass = Seq<(Seq<(Seq<char>, FieldValues)>, Window)>;

/// The listings after recording every page of a pass, in order.
pub open spec fn record_pass(states: ListingStates, pass: Pass) -> ListingStates
    decreases pass.len(),
{
    if pass.len() == 0 {
        states
    } else {
        record_listings(record_pass(states, pass.drop_last()), pass.last().0, pass.last().1)
    }
}

/// The changes that the pages of a pass show, page after page.
pub open spec fn pass_changes(states: ListingStates, pass: Pass) -> Seq<(Seq<char>, SquareListingField)>
    decreases pass.len(),
{
    if pass.len() == 0 {
        Seq::empty()
    } else {
        pass_changes(states, pass.drop_last()) + listing_changes(
            record_pass(states, pass.drop_last()),
            pass.last().0,
            pass.last().1,
        )
    }
}

/// The tracked fields of the pages of catalog objects of a pass.
pub open spec fn catalog_pass(pages: Seq<(Seq<CatalogObject>, Window)>) -> Pass {
    pages.map_values(|page: (Seq<CatalogObject>, Window)| (page_fields(page.0), page.1))
}

/// The mapping after recording the descriptors of every page of a pass, in order.
pub open spec fn record_mapping_pages(
    mapping: Map<Seq<char>, Seq<Seq<char>>>,
    pages: Seq<(Seq<CatalogObject>, Window)>,
) -> Map<Seq<char>, Seq<Seq<char>>>
    decreases pages.len(),
{
    if pages.len() == 0 {
        mapping
    } else {
        record_mapping(record_mapping_pages(mapping, pages.drop_last()), page_mapping(pages.last().0))
    }
}

proof fn lemma_record_mapping_keeps(
    mapping: Map<Seq<char>, Seq<Seq<char>>>,
    entries: Seq<(Seq<char>, Seq<Seq<char>>)>,
    id: Seq<char>,
)
    requires
        mapping.contains_key(id),
    ensures
        record_mapping(mapping, entries).contains_key(id),
    decreases entries.len(),
{
    if entries.len() > 0 {
        lemma_record_mapping_keeps(mapping, entries.drop_last(), id);
    }
}

proof fn lemma_catalog_pass_tracks(
    states: ListingStates,
    pages: Seq<(Seq<CatalogObject>, Window)>,
    p: int,
    k: int,
)
    requires
        0 <= p < pages.len(),
        0 <= k < pages[p].0.len(),
    ensures
        field_is_tracked(record_pass(states, catalog_pass(pages)), pages[p].0[k].id@, SquareListingField::Title),
    decreases pages.len(),
{
    let init = pages.drop_last();
    let n = pages.len() - 1;
    assert(catalog_pass(pages).drop_last() =~= catalog_pass(init));
    let before = record_pass(states, catalog_pass(init));
    let fields = page_fields(pages[n].0);
    assert(catalog_pass(pages).last() == (fields, pages[n].1));
    if p == n {
        lemma_recorded_page_is_tracked(before, fields, pages[n].1);
        assert(fields[k] == (pages[p].0[k].id@, item_fields(pages[p].0[k].item_data.unwrap())));
        assert(fields[k].1[0].0 == SquareListingField::Title);
    } else {
        assert(init[p] == pages[p]);
        lemma_catalog_pass_tracks(states, init, p, k);
        lemma_record_listings_keeps(before, fields, pages[n].1, pages[p].0[k].id@, SquareListingField::Title);
    }
}

proof fn lemma_mapping_pages_has(
    mapping: Map<Seq<char>, Seq<Seq<char>>>,
    pages: Seq<(Seq<CatalogObject>, Window)>,
    p: int,
    k: int,
)
    requires
        0 <= p < pages.len(),
        0 <= k < pages[p].0.len(),
    ensures
        record_mapping_pages(mapping, pages).contains_key(pages[p].0[k].id@),
    decreases pages.len(),
{
    let init = pages.drop_last();
    let n = pages.len() - 1;
    let before = record_mapping_pages(mapping, init);
    if p == n {
        lemma_recorded_mapping_has(before, page_mapping(pages[n].0), k);
        assert(page_mapping(pages[n].0)[k].0 == pages[p].0[k].id@);
    } else {
        assert(init[p] == pages[p]);
        lemma_mapping_pages_has(mapping, init, p, k);
        lemma_record_mapping_keeps(before, page_mapping(pages[n].0), pages[p].0[k].id@);
    }
}

/// Observing a page after initialising with a pass whose pages hold every
/// object of it never fails: each of its fields is tracked, and each changed
/// listing has a descriptor.
pub proof fn lemma_page_observable_after_initialise(
    states: ListingStates,
    mapping: Map<Seq<char>, Seq<Seq<char>>>,
    initial: Seq<(Seq<CatalogObject>, Window)>,
    later: Seq<CatalogObject>,
    later_at: Window,
)
    requires
        forall|i: int|
            0 <= i < later.len() ==> exists|p: int, k: int|
                0 <= p < initial.len() && 0 <= k < initial[p].0.len()
                    && (#[trigger] initial[p].0[k]).id@ == (#[trigger] later[i]).id@,
    ensures
        ({
            let initialised = record_pass(states, catalog_pass(initial));
            &&& page_is_tracked(initialised, page_fields(later))
            &&& changes_are_mapped(
                record_mapping_pages(mapping, initial),
                listing_changes(initialised, page_fields(later), later_at),
            )
        }),
{
    let initialised = record_pass(states, catalog_pass(initial));
    let later_fields = page_fields(later);
    assert forall|i: int, j: int|
        #![trigger later_fields[i].1[j]]
        0 <= i < later_fields.len() && 0 <= j < later_fields[i].1.len() implies field_is_tracked(
            initialised,
            later_fields[i].0,
            later_fields[i].1[j].0,
        ) by {
        assert(later_fields[i] == (later[i].id@, item_fields(later[i].item_data.unwrap())));
        let (p, k) = choose|p: int, k: int|
            0 <= p < initial.len() && 0 <= k < initial[p].0.len()
                && (#[trigger] initial[p].0[k]).id@ == later[i].id@;
        assert(later_fields[i].1[j].0 == SquareListingField::Title);
        lemma_catalog_pass_tracks(states, initial, p, k);
    }
    let changes = listing_changes(initialised, later_fields, later_at);
    assert forall|c: int| 0 <= c < changes.len() implies record_mapping_pages(mapping, initial).contains_key(
        #[trigger] changes[c].0,
    ) by {
        lemma_changes_come_from_page(initialised, later_fields, later_at, c);
        let i = choose|i: int| 0 <= i < later_fields.len() && (#[trigger] later_fields[i]).0 == changes[c].0;
        assert(later_fields[i].0 == later[i].id@);
        let (p, k) = choose|p: int, k: int|
            0 <= p < initial.len() && 0 <= k < initial[p].0.len()
                && (#[trigger] initial[p].0[k]).id@ == later[i].id@;
        lemma_mapping_pages_has(mapping, initial, p, k);
    }
}

/// The pass shows `value` for the field `field` of the listing `id`.
pub open spec fn pass_shows(pass: Pass, id: Seq<char>, field: SquareListingField, value: Seq<char>) -> bool {
    exists|p: int, i: int, j: int|
        #![trigger pass[p].0[i].1[j]]
        0 <= p < pass.len() && 0 <= i < pass[p].0.len() && 0 <= j < pass[p].0[i].1.len()
            && pass[p].0[i].0 == id && pass[p].0[i].1[j] == (field, value)
}

/// The pass shows at most one value for each field of each listing, however
/// often it lists the listing.
pub open spec fn pass_is_consistent(pass: Pass) -> bool {
    forall|id: Seq<char>, field: SquareListingField, v1: Seq<char>, v2: Seq<char>|
        #![trigger pass_shows(pass, id, field, v1), pass_shows(pass, id, field, v2)]
        pass_shows(pass, id, field, v1) && pass_shows(pass, id, field, v2) ==> v1 == v2
}

proof fn lemma_record_fields_settles(
    fields: Map<SquareListingField, (Window, Seq<char>)>,
    values: FieldValues,
    at: Window,
    field: SquareListingField,
    value: Seq<char>,
)
    requires
        (fields.contains_key(field) && fields[field].1 == value) || exists|j: int|
            0 <= j < values.len() && #[trigger] values[j] == (field, value),
        forall|j: int| 0 <= j < values.len() && (#[trigger] values[j]).0 == field ==> values[j].1 == value,
    ensures
        record_fields(fields, values, at).contains_key(field),
        record_fields(fields, values, at)[field].1 == value,
    decreases values.len(),
{
    if values.len() > 0 {
        let init = values.drop_last();
        let n = values.len() - 1;
        assert(values[n] == values.last());
        if values.last().0 != field {
            if exists|j: int| 0 <= j < values.len() && #[trigger] values[j] == (field, value) {
                let j = choose|j: int| 0 <= j < values.len() && #[trigger] values[j] == (field, value);
                assert(init[j] == values[j]);
            }
            assert forall|j: int| 0 <= j < init.len() && (#[trigger] init[j]).0 == field implies init[j].1 == value by {
                assert(init[j] == values[j]);
            }
            lemma_record_fields_settles(fields, init, at, field, value);
        }
    }
}

proof fn lemma_record_listings_settles(
    states: ListingStates,
    listings: Seq<(Seq<char>, FieldValues)>,
    at: Window,
    id: Seq<char>,
    field: SquareListingField,
    value: Seq<char>,
)
    requires
        field_agrees(states, id, field, value) || exists|i: int, j: int|
            #![trigger listings[i].1[j]]
            0 <= i < listings.len() && 0 <= j < listings[i].1.len() && listings[i].0 == id
                && listings[i].1[j] == (field, value),
        forall|i: int, j: int|
            #![trigger listings[i].1[j]]
            0 <= i < listings.len() && 0 <= j < listings[i].1.len() && listings[i].0 == id
                && listings[i].1[j].0 == field ==> listings[i].1[j].1 == value,
    ensures
        field_agrees(record_listings(states, listings, at), id, field, value),
    decreases listings.len(),
{
    if listings.len() > 0 {
        let init = listings.drop_last();
        let n = listings.len() - 1;
        let last = listings.last();
        let before = record_listings(states, init, at);
        assert(listings[n] == last);
        assert forall|j: int| 0 <= j < last.1.len() && (#[trigger] last.1[j]).0 == field && last.0 == id
            implies last.1[j].1 == value by {
            assert(listings[n].1[j] == last.1[j]);
        }
        if last.0 == id && exists|j: int| 0 <= j < last.1.len() && #[trigger] last.1[j] == (field, value) {
            lemma_record_fields_settles(tracked_fields(before, id), last.1, at, field, value);
        } else {
            if exists|i: int, j: int|
                #![trigger listings[i].1[j]]
                0 <= i < listings.len() && 0 <= j < listings[i].1.len() && listings[i].0 == id
                    && listings[i].1[j] == (field, value) {
                let (i, j) = choose|i: int, j: int|
                    #![trigger listings[i].1[j]]
                    0 <= i < listings.len() && 0 <= j < listings[i].1.len() && listings[i].0 == id
                        && listings[i].1[j] == (field, value);
                if i == n {
                    assert(last.1[j] == (field, value));
                }
                assert(init[i] == listings[i]);
                assert(init[i].1[j] == listings[i].1[j]);
            }
            assert forall|i: int, j: int|
                #![trigger init[i].1[j]]
                0 <= i < init.len() && 0 <= j < init[i].1.len() && init[i].0 == id
                    && init[i].1[j].0 == field implies init[i].1[j].1 == value by {
                assert(init[i] == listings[i]);
                assert(listings[i].1[j] == init[i].1[j]);
            }
            lemma_record_listings_settles(states, init, at, id, field, value);
            if last.0 == id {
                lemma_record_fields_settles(tracked_fields(before, id), last.1, at, field, value);
            }
        }
    }
}

/// Recording a consistent pass leaves every field it shows with the value it
/// shows for it.
pub proof fn lemma_recorded_pass_settles(states: ListingStates, pass: Pass)
    requires
        pass_is_consistent(pass),
    ensures
        forall|id: Seq<char>, field: SquareListingField, value: Seq<char>|
            #[trigger] pass_shows(pass, id, field, value) ==> field_agrees(
                record_pass(states, pass),
                id,
                field,
                value,
            ),
    decreases pass.len(),
{
    if pass.len() > 0 {
        let init = pass.drop_last();
        let n = pass.len() - 1;
        let before = record_pass(states, init);
        let page = pass.last().0;
        let at = pass.last().1;
        assert(pass[n] == pass.last());
        assert forall|id: Seq<char>, field: SquareListingField, value: Seq<char>|
            #[trigger] pass_shows(init, id, field, value) implies pass_shows(pass, id, field, value) by {
            let (p, i, j) = choose|p: int, i: int, j: int|
                #![trigger init[p].0[i].1[j]]
                0 <= p < init.len() && 0 <= i < init[p].0.len() && 0 <= j < init[p].0[i].1.len()
                    && init[p].0[i].0 == id && init[p].0[i].1[j] == (field, value);
            assert(pass[p] == init[p]);
            assert(pass[p].0[i].1[j] == init[p].0[i].1[j]);
        }
        assert(pass_is_consistent(init)) by {
            assert forall|id: Seq<char>, field: SquareListingField, v1: Seq<char>, v2: Seq<char>|
                pass_shows(init, id, field, v1) && pass_shows(init, id, field, v2) implies v1 == v2 by {
                assert(pass_shows(pass, id, field, v1));
                assert(pass_shows(pass, id, field, v2));
            }
        }
        lemma_recorded_pass_settles(states, init);
        assert forall|id: Seq<char>, field: SquareListingField, value: Seq<char>|
            #[trigger] pass_shows(pass, id, field, value) implies field_agrees(
                record_pass(states, pass),
                id,
                field,
                value,
            ) by {
            let (p, i, j) = choose|p: int, i: int, j: int|
                #![trigger pass[p].0[i].1[j]]
                0 <= p < pass.len() && 0 <= i < pass[p].0.len() && 0 <= j < pass[p].0[i].1.len()
                    && pass[p].0[i].0 == id && pass[p].0[i].1[j] == (field, value);
            if p < n {
                assert(init[p] == pass[p]);
                assert(init[p].0[i].1[j] == pass[p].0[i].1[j]);
                assert(pass_shows(init, id, field, value));
            } else {
                assert(page[i].1[j] == (field, value));
            }
            assert forall|i2: int, j2: int|
                #![trigger page[i2].1[j2]]
                0 <= i2 < page.len() && 0 <= j2 < page[i2].1.len() && page[i2].0 == id
                    && page[i2].1[j2].0 == field implies page[i2].1[j2].1 == value by {
                assert(pass[n].0[i2].1[j2] == page[i2].1[j2]);
                assert(pass_shows(pass, id, field, page[i2].1[j2].1));
            }
            lemma_record_listings_settles(before, page, at, id, field, value);
        }
    }
}

/// A pass each of whose pages shows every field with the value already known
/// of it yields no change, and leaves every known value as it was.
pub proof fn lemma_agreeing_pass_has_no_changes(states: ListingStates, pass: Pass)
    requires
        forall|p: int| 0 <= p < pass.len() ==> page_agrees(states, #[trigger] pass[p].0),
    ensures
        pass_changes(states, pass).len() == 0,
        forall|id: Seq<char>, field: SquareListingField|
            field_is_tracked(states, id, field) ==> #[trigger] field_agrees(
                record_pass(states, pass),
                id,
                field,
                states[id][field].1,
            ),
    decreases pass.len(),
{
    if pass.len() > 0 {
        let init = pass.drop_last();
        let n = pass.len() - 1;
        let before = record_pass(states, init);
        let page = pass.last().0;
        let at = pass.last().1;
        assert(pass[n] == pass.last());
        assert forall|p: int| 0 <= p < init.len() implies page_agrees(states, #[trigger] init[p].0) by {
            assert(init[p] == pass[p]);
        }
        lemma_agreeing_pass_has_no_changes(states, init);
        assert(page_agrees(states, pass[n].0));
        assert(page_agrees(before, page)) by {
            assert forall|i: int, j: int|
                #![trigger page[i].1[j]]
                0 <= i < page.len() && 0 <= j < page[i].1.len() implies field_agrees(
                    before,
                    page[i].0,
                    page[i].1[j].0,
                    page[i].1[j].1,
                ) by {
                assert(field_agrees(states, page[i].0, page[i].1[j].0, page[i].1[j].1));
                assert(field_agrees(before, page[i].0, page[i].1[j].0, states[page[i].0][page[i].1[j].0].1));
            }
        }
        lemma_unchanged_page_has_no_changes(before, page, at);
        assert forall|id: Seq<char>, field: SquareListingField| field_is_tracked(states, id, field) implies #[trigger] field_agrees(
            record_pass(states, pass),
            id,
            field,
            states[id][field].1,
        ) by {
            assert(field_agrees(before, id, field, states[id][field].1));
            assert(field_agrees(record_listings(before, page, at), id, field, before[id][field].1));
        }
    }
}

/// Going over a consistent pass a second time, page for page, yields no
/// change, whatever the windows of the second pass; it leaves every known value
/// as the first pass left it.
pub proof fn lemma_repeated_pass_has_no_changes(states: ListingStates, first: Pass, second: Pass)
    requires
        pass_is_consistent(first),
        second.len() == first.len(),
        forall|p: int| 0 <= p < second.len() ==> (#[trigger] second[p]).0 == first[p].0,
    ensures
        pass_changes(record_pass(states, first), second).len() == 0,
        forall|id: Seq<char>, field: SquareListingField|
            field_is_tracked(record_pass(states, first), id, field) ==> #[trigger] field_agrees(
                record_pass(record_pass(states, first), second),
                id,
                field,
                record_pass(states, first)[id][field].1,
            ),
{
    let recorded = record_pass(states, first);
    lemma_recorded_pass_settles(states, first);
    assert forall|p: int| 0 <= p < second.len() implies page_agrees(recorded, #[trigger] second[p].0) by {
        let page = second[p].0;
        assert forall|i: int, j: int|
            #![trigger page[i].1[j]]
            0 <= i < page.len() && 0 <= j < page[i].1.len() implies field_agrees(
                recorded,
                page[i].0,
                page[i].1[j].0,
                page[i].1[j].1,
            ) by {
            assert(first[p].0[i].1[j] == page[i].1[j]);
            assert(pass_shows(first, page[i].0, page[i].1[j].0, page[i].1[j].1));
        }
    }
    lemma_agreeing_pass_has_no_changes(recorded, second);
}

/// The descriptor of an item holds the SKU of every variation that carries one,
/// each once, in the order of the variations, and nothing else.
pub proof fn lemma_descriptor_keeps_every_sku(item: CatalogItem)
    requires
        item.variations is Some,
    ensures
        item_descriptor(item) == item.variations.unwrap()@.filter(|v: CatalogObject| carries_sku(v)).map_values(
            |v: CatalogObject| sku_of(v)@,
        ),
        item_descriptor(item).len() == item.variations.unwrap()@.filter(|v: CatalogObject| carries_sku(v)).len(),
{
    let variations = item.variations.unwrap()@;
    lemma_variation_skus_are_the_carried_skus(variations);
    let carried = variations.filter(|v: CatalogObject| carries_sku(v));
    assert(carried.map_values(|v: CatalogObject| sku_of(v)).map_values(|s: String| s@)
        =~= carried.map_values(|v: CatalogObject| sku_of(v)@));
}

/// The ids of the objects on a page are distinct.
pub open spec fn ids_are_distinct(objects: Seq<CatalogObject>) -> bool {
    forall|a: int, b: int|
        #![trigger objects[a], objects[b]]
        0 <= a < objects.len() && 0 <= b < objects.len() && a != b ==> objects[a].id@ != objects[b].id@
}

/// Recording the descriptors of a page of distinct objects maps each object's id
/// to the SKUs of its variations that carry one, in order.
pub proof fn lemma_recorded_mapping_reads_back(
    mapping: Map<Seq<char>, Seq<Seq<char>>>,
    objects: Seq<CatalogObject>,
    k: int,
)
    requires
        ids_are_distinct(objects),
        0 <= k < objects.len(),
        objects[k].item_data matches Some(item) && item.variations is Some,
    ensures
        record_mapping(mapping, page_mapping(objects)).contains_key(objects[k].id@),
        record_mapping(mapping, page_mapping(objects))[objects[k].id@] == objects[k].item_data.unwrap().variations.unwrap()@.filter(
            |v: CatalogObject| carries_sku(v),
        ).map_values(|v: CatalogObject| sku_of(v)@),
    decreases objects.len(),
{
    lemma_descriptor_keeps_every_sku(objects[k].item_data.unwrap());
    let init = objects.drop_last();
    let n = objects.len() - 1;
    assert(page_mapping(objects).drop_last() =~= page_mapping(init));
    assert(page_mapping(objects).last() == (objects[n].id@, item_descriptor(objects[n].item_data.unwrap())));
    if k < n {
        assert(init[k] == objects[k]);
        assert(ids_are_distinct(init)) by {
            assert forall|a: int, b: int| 0 <= a < init.len() && 0 <= b < init.len() && a != b
                implies #[trigger] init[a].id@ != #[trigger] init[b].id@ by {
                assert(init[a] == objects[a]);
                assert(init[b] == objects[b]);
            }
        }
        lemma_recorded_mapping_reads_back(mapping, init, k);
        assert(objects[n].id@ != objects[k].id@);
    }
}

/// Recording a page of distinct named items tracks each item's title as its
/// whole name, seen within the window of the page.
pub proof fn lemma_recorded_titles_are_whole_names(
    states: ListingStates,
    objects: Seq<CatalogObject>,
    at: Window,
    k: int,
)
    requires
        ids_are_distinct(objects),
        0 <= k < objects.len(),
        object_has_named_item(objects[k]),
    ensures
        field_is_tracked(record_listings(states, page_fields(objects), at), objects[k].id@, SquareListingField::Title),
        record_listings(states, page_fields(objects), at)[objects[k].id@][SquareListingField::Title] == (
            at,
            objects[k].item_data.unwrap().name.unwrap()@,
        ),
{
    let listings = page_fields(objects);
    assert(page_is_distinct(listings)) by {
        assert forall|a: int, b: int| 0 <= a < listings.len() && 0 <= b < listings.len() && a != b
            implies #[trigger] listings[a].0 != #[trigger] listings[b].0 by {
            assert(objects[a].id@ != objects[b].id@);
        }
        assert forall|a: int| 0 <= a < listings.len() implies fields_are_distinct(#[trigger] listings[a].1) by {
            assert(listings[a].1.len() == 1);
        }
    }
    assert(listings[k] == (objects[k].id@, item_fields(objects[k].item_data.unwrap())));
    assert(listings[k].1[0] == (SquareListingField::Title, objects[k].item_data.unwrap().name.unwrap()@));
    lemma_recorded_page_reads_back(states, listings, at, k, 0);
}

proof fn lemma_record_fields_other(
    fields: Map<SquareListingField, (Window, Seq<char>)>,
    values: FieldValues,
    at: Window,
    field: SquareListingField,
)
    requires
        forall|j: int| 0 <= j < values.len() ==> (#[trigger] values[j]).0 != field,
    ensures
        record_fields(fields, values, at).contains_key(field) == fields.contains_key(field),
        fields.contains_key(field) ==> record_fields(fields, values, at)[field] == fields[field],
    decreases values.len(),
{
    if values.len() > 0 {
        let init = values.drop_last();
        assert(values[values.len() - 1] == values.last());
        assert forall|j: int| 0 <= j < init.len() implies (#[trigger] init[j]).0 != field by {
            assert(init[j] == values[j]);
        }
        lemma_record_fields_other(fields, init, at, field);
    }
}

proof fn lemma_record_listings_other(
    states: ListingStates,
    listings: Seq<(Seq<char>, FieldValues)>,
    at: Window,
    id: Seq<char>,
)
    requires
        forall|i: int| 0 <= i < listings.len() ==> (#[trigger] listings[i]).0 != id,
    ensures
        record_listings(states, listings, at).contains_key(id) == states.contains_key(id),
        states.contains_key(id) ==> record_listings(states, listings, at)[id] == states[id],
    decreases listings.len(),
{
    if listings.len() > 0 {
        let init = listings.drop_last();
        assert(listings[listings.len() - 1] == listings.last());
        assert forall|i: int| 0 <= i < init.len() implies (#[trigger] init[i]).0 != id by {
            assert(init[i] == listings[i]);
        }
        lemma_record_listings_other(states, init, at, id);
    }
}

proof fn lemma_field_changes_of_distinct_fields(
    fields: Map<SquareListingField, (Window, Seq<char>)>,
    values: FieldValues,
    at: Window,
)
    requires
        fields_are_distinct(values),
        forall|j: int| 0 <= j < values.len() ==> fields.contains_key((#[trigger] values[j]).0),
    ensures
        forall|j: int|
            0 <= j < values.len() ==> (field_changes(fields, values, at).contains((#[trigger] values[j]).0)
                <==> fields[values[j].0].1 != values[j].1),
        forall|k: int|
            #![trigger field_changes(fields, values, at)[k]]
            0 <= k < field_changes(fields, values, at).len() ==> exists|j: int|
                0 <= j < values.len() && (#[trigger] values[j]).0 == field_changes(fields, values, at)[k],
    decreases values.len(),
{
    if values.len() > 0 {
        let init = values.drop_last();
        let n = values.len() - 1;
        let last = values.last();
        assert(values[n] == last);
        assert(fields_are_distinct(init)) by {
            assert forall|a: int, b: int| 0 <= a < init.len() && 0 <= b < init.len() && a != b
                implies #[trigger] init[a].0 != #[trigger] init[b].0 by {
                assert(init[a] == values[a]);
                assert(init[b] == values[b]);
            }
        }
        assert forall|j: int| 0 <= j < init.len() implies fields.contains_key((#[trigger] init[j]).0) by {
            assert(init[j] == values[j]);
        }
        lemma_field_changes_of_distinct_fields(fields, init, at);
        assert forall|j: int| 0 <= j < init.len() implies (#[trigger] init[j]).0 != last.0 by {
            assert(init[j] == values[j]);
        }
        lemma_record_fields_other(fields, init, at, last.0);
        let earlier = field_changes(fields, init, at);
        let all = field_changes(fields, values, at);
        assert(!earlier.contains(last.0)) by {
            if earlier.contains(last.0) {
                let k = choose|k: int| 0 <= k < earlier.len() && earlier[k] == last.0;
                let j = choose|j: int| 0 <= j < init.len() && (#[trigger] init[j]).0 == earlier[k];
            }
        }
        assert forall|j: int| 0 <= j < values.len() implies (all.contains((#[trigger] values[j]).0)
            <==> fields[values[j].0].1 != values[j].1) by {
            if j < n {
                assert(init[j] == values[j]);
                if all.contains(values[j].0) {
                    let k = choose|k: int| 0 <= k < all.len() && all[k] == values[j].0;
                    if k < earlier.len() {
                        assert(earlier[k] == all[k]);
                    }
                }
                if earlier.contains(values[j].0) {
                    let k = choose|k: int| 0 <= k < earlier.len() && earlier[k] == values[j].0;
                    assert(all[k] == earlier[k]);
                }
            } else {
                if all.contains(values[j].0) {
                    let k = choose|k: int| 0 <= k < all.len() && all[k] == values[j].0;
                    if k < earlier.len() {
                        assert(earlier[k] == all[k]);
                    }
                }
                if fields[last.0].1 != last.1 {
                    assert(all[earlier.len() as int] == last.0);
                }
            }
        }
        assert forall|k: int| #![trigger all[k]] 0 <= k < all.len() implies exists|j: int|
            0 <= j < values.len() && (#[trigger] values[j]).0 == all[k] by {
            if k < earlier.len() {
                assert(all[k] == earlier[k]);
                let j = choose|j: int| 0 <= j < init.len() && (#[trigger] init[j]).0 == earlier[k];
                assert(values[j] == init[j]);
            } else {
                assert(all[k] == last.0);
            }
        }
    }
}

/// On a page of distinct, tracked listings, a field is reported as changed
/// exactly when the value on the page differs from the value known of it, and
/// every reported change names a field of a listing on the page.
pub proof fn lemma_changes_are_the_differing_fields(
    states: ListingStates,
    listings: Seq<(Seq<char>, FieldValues)>,
    at: Window,
)
    requires
        page_is_distinct(listings),
        page_is_tracked(states, listings),
    ensures
        forall|i: int, j: int|
            #![trigger listings[i].1[j]]
            0 <= i < listings.len() && 0 <= j < listings[i].1.len() ==> (listing_changes(
                states,
                listings,
                at,
            ).contains((listings[i].0, listings[i].1[j].0)) <==> states[listings[i].0][listings[i].1[j].0].1
                != listings[i].1[j].1),
        forall|k: int|
            #![trigger listing_changes(states, listings, at)[k]]
            0 <= k < listing_changes(states, listings, at).len() ==> exists|i: int, j: int|
                #![trigger listings[i].1[j]]
                0 <= i < listings.len() && 0 <= j < listings[i].1.len()
                    && listing_changes(states, listings, at)[k] == (listings[i].0, listings[i].1[j].0),
    decreases listings.len(),
{
    if listings.len() > 0 {
        let init = listings.drop_last();
        let n = listings.len() - 1;
        let last = listings.last();
        let before = record_listings(states, init, at);
        assert(listings[n] == last);
        assert(page_is_distinct(init)) by {
            assert forall|a: int, b: int| 0 <= a < init.len() && 0 <= b < init.len() && a != b
                implies #[trigger] init[a].0 != #[trigger] init[b].0 by {
                assert(init[a] == listings[a]);
                assert(init[b] == listings[b]);
            }
            assert forall|a: int| 0 <= a < init.len() implies fields_are_distinct(#[trigger] init[a].1) by {
                assert(init[a] == listings[a]);
            }
        }
        assert(page_is_tracked(states, init)) by {
            assert forall|i: int, j: int|
                #![trigger init[i].1[j]]
                0 <= i < init.len() && 0 <= j < init[i].1.len() implies field_is_tracked(
                    states,
                    init[i].0,
                    init[i].1[j].0,
                ) by {
                assert(init[i] == listings[i]);
                assert(listings[i].1[j] == init[i].1[j]);
            }
        }
        lemma_changes_are_the_differing_fields(states, init, at);
        assert forall|i: int| 0 <= i < init.len() implies (#[trigger] init[i]).0 != last.0 by {
            assert(init[i] == listings[i]);
        }
        lemma_record_listings_other(states, init, at, last.0);
        let known = tracked_fields(states, last.0);
        assert(tracked_fields(before, last.0) == known);
        assert(fields_are_distinct(last.1));
        assert forall|j: int| 0 <= j < last.1.len() implies known.contains_key((#[trigger] last.1[j]).0) by {
            assert(listings[n].1[j] == last.1[j]);
        }
        lemma_field_changes_of_distinct_fields(known, last.1, at);
        let earlier = listing_changes(states, init, at);
        let fc = field_changes(known, last.1, at);
        let mine = listing_field_changes(last.0, known, last.1, at);
        let all = listing_changes(states, listings, at);
        assert(all == earlier + mine);
        assert forall|k: int| 0 <= k < earlier.len() implies (#[trigger] earlier[k]).0 != last.0 by {
            let (i, j) = choose|i: int, j: int|
                #![trigger init[i].1[j]]
                0 <= i < init.len() && 0 <= j < init[i].1.len() && earlier[k] == (init[i].0, init[i].1[j].0);
        }
        assert forall|i: int, j: int|
            #![trigger listings[i].1[j]]
            0 <= i < listings.len() && 0 <= j < listings[i].1.len() implies (all.contains(
                (listings[i].0, listings[i].1[j].0),
            ) <==> states[listings[i].0][listings[i].1[j].0].1 != listings[i].1[j].1) by {
            let pair = (listings[i].0, listings[i].1[j].0);
            if i < n {
                assert(init[i] == listings[i]);
                assert(init[i].1[j] == listings[i].1[j]);
                if all.contains(pair) {
                    let k = choose|k: int| 0 <= k < all.len() && all[k] == pair;
                    if k < earlier.len() {
                        assert(earlier[k] == all[k]);
                    } else {
                        assert(mine[k - earlier.len()] == all[k]);
                        assert(all[k].0 == last.0);
                    }
                }
                if earlier.contains(pair) {
                    let k = choose|k: int| 0 <= k < earlier.len() && earlier[k] == pair;
                    assert(all[k] == earlier[k]);
                }
            } else {
                assert(last.1[j] == listings[i].1[j]);
                if all.contains(pair) {
                    let k = choose|k: int| 0 <= k < all.len() && all[k] == pair;
                    if k < earlier.len() {
                        assert(earlier[k] == all[k]);
                    } else {
                        let m = k - earlier.len();
                        assert(mine[m] == all[k]);
                        assert(mine[m] == (last.0, fc[m]));
                        assert(fc.contains(last.1[j].0));
                    }
                }
                if fc.contains(last.1[j].0) {
                    let m = choose|m: int| 0 <= m < fc.len() && fc[m] == last.1[j].0;
                    assert(mine[m] == (last.0, fc[m]));
                    assert(all[earlier.len() + m] == mine[m]);
                }
            }
        }
        assert forall|k: int| #![trigger all[k]] 0 <= k < all.len() implies exists|i: int, j: int|
            #![trigger listings[i].1[j]]
            0 <= i < listings.len() && 0 <= j < listings[i].1.len() && all[k] == (listings[i].0, listings[i].1[j].0) by {
            if k < earlier.len() {
                assert(all[k] == earlier[k]);
                let (i, j) = choose|i: int, j: int|
                    #![trigger init[i].1[j]]
                    0 <= i < init.len() && 0 <= j < init[i].1.len() && earlier[k] == (init[i].0, init[i].1[j].0);
                assert(listings[i] == init[i]);
                assert(listings[i].1[j] == init[i].1[j]);
            } else {
                let m = k - earlier.len();
                assert(all[k] == mine[m]);
                assert(mine[m] == (last.0, fc[m]));
                let j = choose|j: int| 0 <= j < last.1.len() && (#[trigger] last.1[j]).0 == fc[m];
                assert(listings[n].1[j] == last.1[j]);
            }
        }
    }
}

proof fn lemma_unchanged_fields(
    fields: Map<SquareListingField, (Window, Seq<char>)>,
    values: FieldValues,
    at: Window,
)
    requires
        forall|j: int|
            0 <= j < values.len() ==> fields.contains_key((#[trigger] values[j]).0)
                && fields[values[j].0].1 == values[j].1,
    ensures
        field_changes(fields, values, at).len() == 0,
        forall|f: SquareListingField|
            fields.contains_key(f) ==> #[trigger] record_fields(fields, values, at).contains_key(f)
                && record_fields(fields, values, at)[f].1 == fields[f].1,
    decreases values.len(),
{
    if values.len() > 0 {
        let init = values.drop_last();
        assert forall|j: int| 0 <= j < init.len() implies fields.contains_key((#[trigger] init[j]).0)
            && fields[init[j].0].1 == init[j].1 by {
            assert(init[j] == values[j]);
        }
        lemma_unchanged_fields(fields, init, at);
        assert(values.last() == values[values.len() - 1]);
    }
}

/// A page that shows every field with the value already known of it yields
/// no change.
pub proof fn lemma_unchanged_page_has_no_changes(
    states: ListingStates,
    listings: Seq<(Seq<char>, FieldValues)>,
    at: Window,
)
    requires
        page_agrees(states, listings),
    ensures
        listing_changes(states, listings, at).len() == 0,
        forall|id: Seq<char>, f: SquareListingField|
            field_is_tracked(states, id, f) ==> #[trigger] field_agrees(
                record_listings(states, listings, at),
                id,
                f,
                states[id][f].1,
            ),
    decreases listings.len(),
{
    if listings.len() > 0 {
        let init = listings.drop_last();
        let last = listings.last();
        let before = record_listings(states, init, at);
        assert(page_agrees(states, init)) by {
            assert forall|i: int, j: int|
                #![trigger init[i].1[j]]
                0 <= i < init.len() && 0 <= j < init[i].1.len() implies field_agrees(
                states,
                init[i].0,
                init[i].1[j].0,
                init[i].1[j].1,
            ) by {
                assert(init[i] == listings[i]);
                assert(listings[i].1[j] == init[i].1[j]);
            }
        }
        lemma_unchanged_page_has_no_changes(states, init, at);
        let known = tracked_fields(before, last.0);
        assert forall|j: int| 0 <= j < last.1.len() implies known.contains_key((#[trigger] last.1[j]).0)
            && known[last.1[j].0].1 == last.1[j].1 by {
            let n = listings.len() - 1;
            assert(listings[n] == last);
            assert(listings[n].1[j] == last.1[j]);
            let f = last.1[j].0;
            assert(field_agrees(before, last.0, f, states[last.0][f].1));
        }
        lemma_unchanged_fields(known, last.1, at);
        let after = record_listings(states, listings, at);
        assert forall|id: Seq<char>, f: SquareListingField| field_is_tracked(states, id, f) implies #[trigger] field_agrees(
            after,
            id,
            f,
            states[id][f].1,
        ) by {
            assert(field_agrees(before, id, f, states[id][f].1));
        }
    }
}

/// Recording a page of distinct listings leaves every field on it with the
/// value the page shows, seen within the window of the page.
pub proof fn lemma_recorded_page_reads_back(
    states: ListingStates,
    listings: Seq<(Seq<char>, FieldValues)>,
    at: Window,
    i: int,
    j: int,
)
    requires
        page_is_distinct(listings),
        0 <= i < listings.len(),
        0 <= j < listings[i].1.len(),
    ensures
        record_listings(states, listings, at).contains_key(listings[i].0),
        record_listings(states, listings, at)[listings[i].0].contains_key(listings[i].1[j].0),
        record_listings(states, listings, at)[listings[i].0][listings[i].1[j].0] == (at, listings[i].1[j].1),
    decreases listings.len(),
{
    let init = listings.drop_last();
    let last = listings.last();
    let before = record_listings(states, init, at);
    if i == listings.len() - 1 {
        assert(fields_are_distinct(listings[i].1));
        lemma_recorded_fields_read_back(tracked_fields(before, last.0), last.1, at, j);
    } else {
        assert(init[i] == listings[i]);
        assert(page_is_distinct(init)) by {
            assert forall|a: int, b: int| 0 <= a < init.len() && 0 <= b < init.len() && a != b
                implies #[trigger] init[a].0 != #[trigger] init[b].0 by {
                assert(init[a] == listings[a]);
                assert(init[b] == listings[b]);
            }
            assert forall|a: int| 0 <= a < init.len() implies fields_are_distinct(#[trigger] init[a].1) by {
                assert(init[a] == listings[a]);
            }
        }
        lemma_recorded_page_reads_back(states, init, at, i, j);
        assert(listings[listings.len() - 1] == last);
        assert(last.0 != listings[i].0);
    }
}

/// Reading a page of distinct listings again right after recording it yields
/// no change, whatever the window of the second reading.
pub proof fn lemma_reread_page_has_no_changes(
    states: ListingStates,
    listings: Seq<(Seq<char>, FieldValues)>,
    at: Window,
    later_at: Window,
)
    requires
        page_is_distinct(listings),
    ensures
        listing_changes(record_listings(states, listings, at), listings, later_at).len() == 0,
{
    let recorded = record_listings(states, listings, at);
    assert forall|i: int, j: int|
        #![trigger listings[i].1[j]]
        0 <= i < listings.len() && 0 <= j < listings[i].1.len() implies field_agrees(
            recorded,
            listings[i].0,
            listings[i].1[j].0,
            listings[i].1[j].1,
        ) by {
        lemma_recorded_page_reads_back(states, listings, at, i, j);
    }
    lemma_unchanged_page_has_no_changes(recorded, listings, later_at);
}

proof fn lemma_recorded_fields_read_back(
    fields: Map<SquareListingField, (Window, Seq<char>)>,
    values: FieldValues,
    at: Window,
    j: int,
)
    requires
        fields_are_distinct(values),
        0 <= j < values.len(),
    ensures
        record_fields(fields, values, at).contains_key(values[j].0),
        record_fields(fields, values, at)[values[j].0] == (at, values[j].1),
    decreases values.len(),
{
    if j < values.len() - 1 {
        let init = values.drop_last();
        assert(init[j] == values[j]);
        assert(fields_are_distinct(init)) by {
            assert forall|a: int, b: int| 0 <= a < init.len() && 0 <= b < init.len() && a != b
                implies #[trigger] init[a].0 != #[trigger] init[b].0 by {
                assert(init[a] == values[a]);
                assert(init[b] == values[b]);
            }
        }
        lemma_recorded_fields_read_back(fields, init, at, j);
        assert(values[values.len() - 1] == values.last());
    }
}

impl SquareVendor {
    /// A vendor that tracks nothing yet.
    pub fn new(name: String, config: SquareConfig) -> (res: Self)
        ensures
            res.name == name,
            res.config == config,
            res.listing_state@ == ListingStates::empty(),
            res.listing_mapping@ == Map::<Seq<char>, Seq<Seq<char>>>::empty(),
    {
        SquareVendor {
            name,
            config,
            listing_state: KeyedMap::new(),
            listing_mapping: KeyedMap::new(),
        }
    }

    /// The descriptor of an item: the SKUs of those of its variations that
    /// have one, in order.
    pub fn find_listing_descriptor(listing: &CatalogItem) -> (res: ListingDescriptor)
        requires
            listing.variations matches Some(variations) && all_variations_have_data(variations@),
        ensures
            res@ == item_descriptor(*listing),
    {
        let mut descriptor: Vec<String> = Vec::new();
        let variations = listing.variations.as_ref().unwrap();
        let mut i: usize = 0;
        while i < variations.len()
            invariant
                variations@ == listing.variations.unwrap()@,
                all_variations_have_data(variations@),
                i <= variations@.len(),
                descriptor@ == variation_skus(variations@.take(i as int)),
            decreases variations@.len() - i,
        {
            assert(variations@.take(i + 1).drop_last() == variations@.take(i as int));
            let variation_data = variations[i].item_variation_data.as_ref().unwrap();
            if let Some(sku) = variation_data.sku.as_ref() {
                descriptor.push(sku.clone());
            }
            i = i + 1;
        }
        assert(variations@.take(variations@.len() as int) == variations@);
        ListingDescriptor { sku: descriptor }
    }

    /// The descriptor of every object on the page, by object id, in order.
    pub fn build_mapping_from_list_catalog_query(query: &SquareQuery<ListCatalogResponse>) -> (res: Vec<(String, ListingDescriptor)>)
        requires
            page_has_described_items(query.response),
        ensures
            mapping_view(res@) == page_mapping(response_objects(query.response)),
    {
        let mut mapping: Vec<(String, ListingDescriptor)> = Vec::new();
        match query.response.objects.as_ref() {
            Some(objects) => {
                let mut i: usize = 0;
                while i < objects.len()
                    invariant
                        objects@ == response_objects(query.response),
                        page_has_described_items(query.response),
                        i <= objects@.len(),
                        mapping@.len() == i,
                        mapping_view(mapping@) == page_mapping(objects@.take(i as int)),
                    decreases objects@.len() - i,
                {
                    let object = &objects[i];
                    assert(object_is_described(response_objects(query.response)[i as int]));
                    let listing_id = object.id.clone();
                    let listing_descriptor = Self::find_listing_descriptor(
                        object.item_data.as_ref().unwrap(),
                    );
                    let ghost prev = mapping@;
                    mapping.push((listing_id, listing_descriptor));
                    proof {
                        let taken = objects@.take(i + 1);
                        assert forall|k: int| 0 <= k < i implies #[trigger] mapping_view(mapping@)[k] == page_mapping(taken)[k] by {
                            assert(mapping@[k] == prev[k]);
                            assert(mapping_view(prev)[k] == page_mapping(objects@.take(i as int))[k]);
                            assert(taken[k] == objects@.take(i as int)[k]);
                        }
                        assert(taken[i as int] == objects@[i as int]);
                        assert(mapping_view(mapping@)[i as int] == page_mapping(taken)[i as int]);
                    }
                    i = i + 1;
                    assert(mapping_view(mapping@) =~= page_mapping(objects@.take(i as int)));
                }
                assert(objects@.take(objects@.len() as int) == objects@);
                mapping
            },
            None => {
                assert(mapping_view(mapping@) =~= page_mapping(response_objects(query.response)));
                mapping
            },
        }
    }

    /// The tracked fields of every object on the page, by object id, in order.
    pub fn process_list_catalog_query(query: &SquareQuery<ListCatalogResponse>) -> (res: Vec<(String, Vec<(SquareListingField, String)>)>)
        requires
            page_has_named_items(query.response),
        ensures
            listing_values_view(res@) == page_fields(response_objects(query.response)),
    {
        let mut build: Vec<(String, Vec<(SquareListingField, String)>)> = Vec::new();
        match query.response.objects.as_ref() {
            Some(objects) => {
                let mut i: usize = 0;
                while i < objects.len()
                    invariant
                        objects@ == response_objects(query.response),
                        page_has_named_items(query.response),
                        i <= objects@.len(),
                        build@.len() == i,
                        listing_values_view(build@) == page_fields(objects@.take(i as int)),
                    decreases objects@.len() - i,
                {
                    let object = &objects[i];
                    assert(object_has_named_item(response_objects(query.response)[i as int]));
                    let ghost prev = build@;
                    let id = object.id.clone();
                    let fields = Self::process_catalog_item(query.at, object.item_data.as_ref().unwrap());
                    build.push((id, fields));
                    proof {
                        let taken = objects@.take(i + 1);
                        assert forall|k: int| 0 <= k < i implies #[trigger] listing_values_view(build@)[k] == page_fields(taken)[k] by {
                            assert(build@[k] == prev[k]);
                            assert(listing_values_view(prev)[k] == page_fields(objects@.take(i as int))[k]);
                            assert(taken[k] == objects@.take(i as int)[k]);
                        }
                        assert(taken[i as int] == objects@[i as int]);
                        assert(listing_values_view(build@)[i as int] == page_fields(taken)[i as int]);
                    }
                    i = i + 1;
                    assert(listing_values_view(build@) =~= page_fields(objects@.take(i as int)));
                }
                assert(objects@.take(objects@.len() as int) == objects@);
                build
            },
            None => {
                assert(listing_values_view(build@) =~= page_fields(response_objects(query.response)));
                build
            },
        }
    }

    /// The tracked fields of an item, with their values: its title.
    pub fn process_catalog_item(at: Window, catalog_item: &CatalogItem) -> (res: Vec<(SquareListingField, String)>)
        requires
            catalog_item.name is Some,
        ensures
            field_values_view(res@) == item_fields(*catalog_item),
    {
        let mut fields: Vec<(SquareListingField, String)> = Vec::new();
        let title = catalog_item.name.as_ref().unwrap();
        fields.push((SquareListingField::Title, title.clone()));
        assert(field_values_view(fields@) =~= item_fields(*catalog_item));
        fields
    }
    /// Takes out what is known of the fields of a listing, leaving it tracked
    /// with no fields, and gives the position at which the listing is held.
    fn take_fields(&mut self, id: &String) -> (res: (FieldStates, Option<usize>))
        ensures
            res.0@ == tracked_fields(old(self).listing_state@, id@),
            final(self).name == old(self).name,
            final(self).config == old(self).config,
            final(self).listing_mapping == old(self).listing_mapping,
            match res.1 {
                Some(slot) => {
                    &&& final(self).listing_state.holds_key_at(slot as int)
                    &&& final(self).listing_state.key_at(slot as int) == id@
                    &&& final(self).listing_state@ == old(self).listing_state@.insert(id@, Map::empty())
                },
                None => {
                    &&& final(self).listing_state@ == old(self).listing_state@
                    &&& !old(self).listing_state@.contains_key(id@)
                },
            },
    {
        match self.listing_state.find(id) {
            Some(slot) => {
                let fields = self.listing_state.replace_at(slot, KeyedMap::new());
                (fields, Some(slot))
            },
            None => (KeyedMap::new(), None),
        }
    }

    /// Gives a listing the fields `fields`, at the position `take_fields` gave.
    fn put_fields(&mut self, id: &String, slot: Option<usize>, fields: FieldStates)
        requires
            slot matches Some(slot) ==> old(self).listing_state.holds_key_at(slot as int)
                && old(self).listing_state.key_at(slot as int) == id@,
        ensures
            final(self).listing_state@ == old(self).listing_state@.insert(id@, fields@),
            final(self).name == old(self).name,
            final(self).config == old(self).config,
            final(self).listing_mapping == old(self).listing_mapping,
    {
        match slot {
            Some(slot) => {
                let _ = self.listing_state.replace_at(slot, fields);
            },
            None => {
                self.listing_state.insert(id.clone(), fields);
            },
        }
    }

    /// Records one page of the catalog as the starting point of tracking: the
    /// descriptor of every object on it, and the value of every tracked field,
    /// seen within the window of the query.
    pub fn initialise_page(&mut self, query: &SquareQuery<ListCatalogResponse>)
        requires
            page_is_complete(query.response),
        ensures
            final(self).name == old(self).name,
            final(self).config == old(self).config,
            final(self).listing_mapping@ == record_mapping(
                old(self).listing_mapping@,
                page_mapping(response_objects(query.response)),
            ),
            final(self).listing_state@ == record_listings(
                old(self).listing_state@,
                page_fields(response_objects(query.response)),
                query.at,
            ),
    {
        assert(page_has_described_items(query.response)) by {
            assert forall|i: int| 0 <= i < response_objects(query.response).len() implies
                object_is_described(#[trigger] response_objects(query.response)[i]) by {
                assert(object_is_complete(response_objects(query.response)[i]));
            }
        }
        let mapping = Self::build_mapping_from_list_catalog_query(query);
        assert(page_has_named_items(query.response)) by {
            assert forall|i: int| 0 <= i < response_objects(query.response).len() implies
                object_has_named_item(#[trigger] response_objects(query.response)[i]) by {
                assert(object_is_complete(response_objects(query.response)[i]));
            }
        }
        let state = Self::process_list_catalog_query(query);
        let at = query.at;

        let ghost mapping0 = self.listing_mapping@;
        let mut i: usize = 0;
        while i < mapping.len()
            invariant
                i <= mapping@.len(),
                self.listing_mapping@ == record_mapping(mapping0, mapping_view(mapping@).take(i as int)),
                self.name == old(self).name,
                self.config == old(self).config,
                self.listing_state == old(self).listing_state,
            decreases mapping@.len() - i,
        {
            assert(mapping_view(mapping@).take(i + 1).drop_last() == mapping_view(mapping@).take(i as int));
            let key = mapping[i].0.clone();
            let descriptor = mapping[i].1.clone();
            self.listing_mapping.insert(key, descriptor);
            i = i + 1;
        }
        assert(mapping_view(mapping@).take(mapping@.len() as int) == mapping_view(mapping@));

        let ghost states0 = self.listing_state@;
        let ghost listings = listing_values_view(state@);
        let mut i: usize = 0;
        while i < state.len()
            invariant
                i <= state@.len(),
                listings == listing_values_view(state@),
                self.listing_state@ == record_listings(states0, listings.take(i as int), at),
                self.name == old(self).name,
                self.config == old(self).config,
                self.listing_mapping@ == record_mapping(mapping0, mapping_view(mapping@)),
            decreases state@.len() - i,
        {
            assert(listings.take(i + 1).drop_last() == listings.take(i as int));
            assert(listings.take(i + 1).last() == listings[i as int]);
            let descriptor = &state[i].0;
            let values = &state[i].1;
            let ghost before = self.listing_state@;
            let ghost values_view = field_values_view(values@);
            let (mut listing_fields, slot) = self.take_fields(descriptor);
            let mut j: usize = 0;
            while j < values.len()
                invariant
                    j <= values@.len(),
                    values_view == field_values_view(values@),
                    listing_fields@ == record_fields(tracked_fields(before, descriptor@), values_view.take(j as int), at),
                decreases values@.len() - j,
            {
                assert(values_view.take(j + 1).drop_last() == values_view.take(j as int));
                let field = values[j].0;
                let value = values[j].1.clone();
                listing_fields.insert(field, SquareState { last_updated: at, last_value: value });
                j = j + 1;
            }
            assert(values_view.take(values@.len() as int) == values_view);
            self.put_fields(descriptor, slot, listing_fields);
            i = i + 1;
            assert(self.listing_state@ =~= record_listings(states0, listings.take(i as int), at));
        }
        assert(listings.take(state@.len() as int) == listings);
    }
    /// Records one page of the catalog against what is known: every tracked
    /// field on it takes the value seen within the window of the query.
    /// Returns the fields whose value on the page differs from the one known
    /// when the page is read up to them, each with the id of its listing, in
    /// the order of the page.
    pub fn observe_page(&mut self, query: &SquareQuery<ListCatalogResponse>) -> (changes: Vec<(String, SquareListingField)>)
        requires
            page_has_named_items(query.response),
            page_is_tracked(old(self).listing_state@, page_fields(response_objects(query.response))),
        ensures
            final(self).name == old(self).name,
            final(self).config == old(self).config,
            final(self).listing_mapping == old(self).listing_mapping,
            final(self).listing_state@ == record_listings(
                old(self).listing_state@,
                page_fields(response_objects(query.response)),
                query.at,
            ),
            changes_view(changes@) == listing_changes(
                old(self).listing_state@,
                page_fields(response_objects(query.response)),
                query.at,
            ),
    {
        let state = Self::process_list_catalog_query(query);
        let at = query.at;
        let mut changes: Vec<(String, SquareListingField)> = Vec::new();

        let ghost states0 = self.listing_state@;
        let ghost listings = listing_values_view(state@);
        let mut i: usize = 0;
        while i < state.len()
            invariant
                i <= state@.len(),
                listings == listing_values_view(state@),
                page_is_tracked(states0, listings),
                self.listing_state@ == record_listings(states0, listings.take(i as int), at),
                self.name == old(self).name,
                self.config == old(self).config,
                self.listing_mapping == old(self).listing_mapping,
                changes_view(changes@) == listing_changes(states0, listings.take(i as int), at),
            decreases state@.len() - i,
        {
            assert(listings.take(i + 1).drop_last() == listings.take(i as int));
            assert(listings.take(i + 1).last() == listings[i as int]);
            let descriptor = &state[i].0;
            let values = &state[i].1;
            let ghost before = self.listing_state@;
            let ghost values_view = field_values_view(values@);
            let ghost fields0 = tracked_fields(before, descriptor@);
            let ghost changes_before = changes_view(changes@);
            assert(listings[i as int] == (descriptor@, values_view));
            let (mut listing_fields, slot) = self.take_fields(descriptor);
            let mut j: usize = 0;
            while j < values.len()
                invariant
                    i < state@.len(),
                    listings.len() == state@.len(),
                    listings[i as int] == (descriptor@, values_view),
                    j <= values@.len(),
                    values_view == field_values_view(values@),
                    before == record_listings(states0, listings.take(i as int), at),
                    fields0 == tracked_fields(before, descriptor@),
                    page_is_tracked(states0, listings),
                    listing_fields@ == record_fields(fields0, values_view.take(j as int), at),
                    changes_view(changes@) == changes_before + listing_field_changes(
                        descriptor@,
                        fields0,
                        values_view.take(j as int),
                        at,
                    ),
                decreases values@.len() - j,
            {
                let ghost taken = values_view.take(j + 1);
                assert(taken.drop_last() == values_view.take(j as int));
                let field = values[j].0;
                let value = &values[j].1;
                proof {
                    assert(listings[i as int].1[j as int] == (field, value@));
                    lemma_record_listings_keeps(states0, listings.take(i as int), at, descriptor@, field);
                    lemma_record_fields_keeps(fields0, values_view.take(j as int), at, field);
                }
                assert(taken.last() == (field, value@));
                let changed = match listing_fields.get(&field) {
                    Some(current) => !current.last_value.same_key(value),
                    None => false,
                };
                let ghost prev = changes@;
                let ghost earlier = field_changes(fields0, values_view.take(j as int), at);
                if changed {
                    changes.push((descriptor.clone(), field));
                    assert(field_changes(fields0, taken, at) == earlier.push(field));
                    assert(changes_view(changes@) =~= changes_view(prev).push((descriptor@, field)));
                    assert(listing_field_changes(descriptor@, fields0, taken, at) =~= listing_field_changes(
                        descriptor@,
                        fields0,
                        values_view.take(j as int),
                        at,
                    ).push((descriptor@, field)));
                } else {
                    assert(field_changes(fields0, taken, at) == earlier);
                }
                assert(changes_view(changes@) =~= changes_before + listing_field_changes(
                    descriptor@,
                    fields0,
                    taken,
                    at,
                ));
                listing_fields.insert(field, SquareState { last_updated: at, last_value: value.clone() });
                j = j + 1;
            }
            assert(values_view.take(values@.len() as int) == values_view);
            self.put_fields(descriptor, slot, listing_fields);
            i = i + 1;
            assert(self.listing_state@ =~= record_listings(states0, listings.take(i as int), at));
        }
        assert(listings.take(state@.len() as int) == listings);
        changes
    }

    /// The observation that the field `field` of the listing with id `id`
    /// changed within `at`, as this vendor reports it: an assignment to the
    /// field of the listing its descriptor names.
    pub fn observation_for(&self, id: &String, field: SquareListingField, at: Window) -> (observation: Observation)
        requires
            self.listing_mapping@.contains_key(id@),
        ensures
            is_assignment_of(
                observation,
                self.listing_mapping@[id@],
                listing_field_of(field),
                at,
                self.name@,
            ),
    {
        let listing_descriptor = self.listing_mapping.get(id).unwrap().clone();
        Observation {
            subject: EntityDescriptor::ListingField((listing_descriptor, ListingField::from(field))),
            at,
            source: self.name.clone(),
            action: Action::Assignment,
        }
    }
}

} // verus!
