//! Further checks of the engine's stated behaviour: determinism, the empty
//! request, tie-breaking, error variants, and boundary inputs.

use storage_search::bin_packing;
use storage_search::model::{AllListings, Listing, SearchRequest, ValidationError, Vehicle};

fn listing(id: &str, location_id: &str, length: i32, width: i32, price_in_cents: i32) -> Listing {
    Listing {
        id: id.to_string(),
        location_id: location_id.to_string(),
        length,
        width,
        price_in_cents,
    }
}

fn sample_catalog() -> Vec<Listing> {
    vec![
        listing("a", "loc1", 20, 10, 150),
        listing("b", "loc2", 30, 10, 120),
        listing("c", "loc1", 10, 10, 40),
        listing("d", "loc3", 10, 5, 10),
    ]
}

#[test]
fn test_empty_vehicle_list_yields_empty_result() {
    let results = bin_packing::search_locations(Vec::new(), &sample_catalog());
    assert!(results.is_empty());
}

#[test]
fn test_zero_quantity_contributes_nothing() {
    let vehicles = vec![
        Vehicle {
            length: 10,
            quantity: 0,
        },
        Vehicle {
            length: 20,
            quantity: 2,
        },
    ];
    assert_eq!(bin_packing::expand_vehicles(vehicles), vec![20, 20]);
}

#[test]
fn test_search_is_deterministic() {
    let vehicles = || {
        vec![Vehicle {
            length: 10,
            quantity: 2,
        }]
    };
    let first = bin_packing::search_locations(vehicles(), &sample_catalog());
    let second = bin_packing::search_locations(vehicles(), &sample_catalog());
    assert_eq!(first.len(), second.len());
    for (x, y) in first.iter().zip(second.iter()) {
        assert_eq!(x.location_id, y.location_id);
        assert_eq!(x.listing_ids, y.listing_ids);
        assert_eq!(x.total_price_in_cents, y.total_price_in_cents);
    }
}

#[test]
fn test_search_results_sorted_and_unique_locations() {
    let vehicles = vec![Vehicle {
        length: 10,
        quantity: 1,
    }];
    let results = bin_packing::search_locations(vehicles, &sample_catalog());
    assert!(!results.is_empty());
    for i in 0..results.len() - 1 {
        assert!(results[i].total_price_in_cents <= results[i + 1].total_price_in_cents);
    }
    for i in 0..results.len() {
        for j in 0..i {
            assert_ne!(results[i].location_id, results[j].location_id);
        }
    }
}

#[test]
fn test_price_tie_keeps_earlier_listing() {
    let vehicles = vec![10];
    let listings = vec![
        listing("first", "loc1", 20, 10, 100),
        listing("second", "loc1", 20, 10, 100),
    ];
    let combo = bin_packing::find_cheapest_combination(&vehicles, &listings).unwrap();
    assert_eq!(combo.listing_ids, vec!["first"]);
    assert_eq!(combo.total_price_in_cents, 100);
}

#[test]
fn test_narrow_listing_admits_no_vehicle() {
    // The secondary dimension is below the fixed vehicle width, so no row fits.
    let vehicles = vec![10];
    let listings = vec![listing("a", "loc1", 100, 5, 10)];
    assert!(bin_packing::find_cheapest_combination(&vehicles, &listings).is_none());
}

#[test]
fn test_no_vehicles_fit_vacuously() {
    let listings = sample_catalog();
    assert!(bin_packing::can_fit_all_vehicles(&[], &listings));
}

#[test]
fn test_no_listings_means_infeasible() {
    assert!(!bin_packing::can_fit_all_vehicles(&[10], &[]));
}

#[test]
fn test_try_fit_large_primary_dimension() {
    assert!(bin_packing::try_fit_vehicles_in_dimension(
        &[],
        10,
        i32::MAX,
        10
    ));
}

#[test]
fn test_validation_error_variants() {
    let negative = Vehicle {
        length: -10,
        quantity: 1,
    };
    assert_eq!(
        negative.validate(),
        Err(ValidationError::LengthNotPositive)
    );

    let off_grid = Vehicle {
        length: 15,
        quantity: 1,
    };
    assert_eq!(
        off_grid.validate(),
        Err(ValidationError::LengthNotMultipleOfTen)
    );

    let no_vehicles = Vehicle {
        length: 10,
        quantity: 0,
    };
    assert_eq!(
        no_vehicles.validate(),
        Err(ValidationError::QuantityNotPositive)
    );

    let empty = SearchRequest { vehicles: vec![] };
    assert_eq!(empty.validate(), Err(ValidationError::EmptyVehicles));

    let overloaded = SearchRequest {
        vehicles: vec![Vehicle {
            length: 10,
            quantity: 6,
        }],
    };
    assert_eq!(
        overloaded.validate(),
        Err(ValidationError::TotalQuantityExceedsCap)
    );
}

#[test]
fn test_request_into_vehicles() {
    let request = SearchRequest {
        vehicles: vec![Vehicle {
            length: 10,
            quantity: 2,
        }],
    };
    let vehicles: Vec<Vehicle> = request.into();
    assert_eq!(vehicles.len(), 1);
    assert_eq!(vehicles[0].length, 10);
    assert_eq!(vehicles[0].quantity, 2);
}

#[test]
fn test_all_listings_handle_round_trip() {
    let catalog = AllListings::new(sample_catalog());
    let inner = catalog.inner();
    assert_eq!(inner.len(), 4);
    assert_eq!(inner[0].id, "a");
    assert_eq!(inner[3].price_in_cents, 10);
}

#[test]
fn test_search_through_catalog_handle() {
    let catalog = AllListings::new(sample_catalog());
    let vehicles = vec![Vehicle {
        length: 30,
        quantity: 1,
    }];
    let results = bin_packing::search_locations(vehicles, catalog.inner());
    assert_eq!(results.len(), 1);
    assert_eq!(results[0].location_id, "loc2");
    assert_eq!(results[0].listing_ids, vec!["b"]);
    assert_eq!(results[0].total_price_in_cents, 120);
}

#[test]
fn test_cheapest_single_listing_at_max_price() {
    let vehicles = vec![10];
    let listings = vec![listing("a", "loc1", 20, 10, i32::MAX)];
    let combo = bin_packing::find_cheapest_combination(&vehicles, &listings).unwrap();
    assert_eq!(combo.total_price_in_cents, i32::MAX);
}
