use shipping_rates::errors::InputValidationError;
use shipping_rates::item::ShippingItem;
use shipping_rates::provider::{ShippingDatabase, ShippingError, ShippingRateQuery};
use shipping_rates::sorting::sort_descending;
use shipping_rates::types::{
    Dimensions, Provider, ProviderInfo, Rate, RateInfo, Region, ServiceInfo, ServiceLevel,
};

fn item(weight: Option<u32>, length: Option<u32>, width: Option<u32>, height: Option<u32>) -> ShippingItem {
    ShippingItem { identifier: "parcel".to_string(), weight, length, width, height }
}

fn limits(length: u32, width: u32, height: u32) -> Dimensions {
    Dimensions {
        length: Some(length),
        width: Some(width),
        height: Some(height),
        length_width_height_max: None,
        longest_side_max: None,
        shortest_longest_side_max: None,
    }
}

fn price_group(countries: &[&str], cents: u64) -> Rate {
    Rate { countries: countries.iter().map(|c| c.to_string()).collect(), online_price: cents, vat_exemption: false }
}

fn rate_class(name: &str, max_weight: u32, max_dimensions: Option<Dimensions>, rates: Vec<Rate>) -> RateInfo {
    RateInfo {
        name: name.to_string(),
        max_weight,
        max_dimensions,
        insurance_included: false,
        insurance_amount: None,
        insurance_optional: None,
        tracking_included: false,
        rate: rates,
        vat_exemption: false,
        vat_exemption_text: None,
    }
}

fn standard(rates: Vec<RateInfo>) -> ServiceInfo {
    ServiceInfo { service: ServiceLevel::Standard, zone: None, shipping_time_days: Vec::new(), rates }
}

/// Germany: DHL (a small and a large class) and DPD (one class); France: La Poste.
fn sample_database() -> ShippingDatabase {
    let dhl = ProviderInfo {
        name: "DHL".to_string(),
        id: Provider::DHL,
        services: vec![standard(vec![
            rate_class(
                "Small",
                2000,
                Some(limits(60, 30, 15)),
                vec![price_group(&["BE", "NL"], 549), price_group(&["FR", "BE"], 649)],
            ),
            rate_class("Large", 31500, Some(limits(120, 60, 60)), vec![price_group(&["FR"], 1649)]),
        ])],
    };
    let dpd = ProviderInfo {
        name: "DPD".to_string(),
        id: Provider::DPD,
        services: vec![standard(vec![rate_class("Classic", 31500, None, vec![price_group(&["FR"], 649)])])],
    };
    let la_poste = ProviderInfo {
        name: "La Poste".to_string(),
        id: Provider::LaPoste,
        services: vec![standard(vec![rate_class("Colissimo", 30000, None, vec![price_group(&["DE"], 1495)])])],
    };
    let mut db = ShippingDatabase::new();
    db.insert_country("DE".to_string(), vec![dhl, dpd]);
    db.insert_country("FR".to_string(), vec![la_poste]);
    db
}

fn query(source: &str, destination: &str, items: Vec<ShippingItem>, provider: Option<Provider>, level: Option<ServiceLevel>) -> ShippingRateQuery {
    ShippingRateQuery {
        source_region: Region::new(source.to_string(), None).unwrap(),
        destination_region: Region::new(destination.to_string(), None).unwrap(),
        items,
        provider,
        service_level: level,
    }
}

#[test]
fn region_accepts_known_country_and_subdivision() {
    let r = Region::new("DE".to_string(), Some("BY".to_string())).unwrap();
    assert_eq!(r.country, "DE");
    assert_eq!(r.region, Some("BY".to_string()));
    let r = Region::new("FR".to_string(), None).unwrap();
    assert_eq!(r.country, "FR");
    assert_eq!(r.region, None);
}

#[test]
fn region_refuses_unknown_country() {
    assert_eq!(
        Region::new("XX".to_string(), None).unwrap_err(),
        InputValidationError::InvalidCountryCode("XX".to_string())
    );
    assert_eq!(
        Region::new("de".to_string(), Some("BY".to_string())).unwrap_err(),
        InputValidationError::InvalidCountryCode("de".to_string())
    );
}

#[test]
fn region_refuses_region_of_country_without_subdivisions() {
    assert_eq!(
        Region::new("AQ".to_string(), Some("XX".to_string())).unwrap_err(),
        InputValidationError::UnexpectedRegionCode("XX".to_string())
    );
}

#[test]
fn region_refuses_unknown_subdivision() {
    assert_eq!(
        Region::new("DE".to_string(), Some("ZZ".to_string())).unwrap_err(),
        InputValidationError::InvalidRegionCode("ZZ".to_string())
    );
}

#[test]
fn item_size_measures() {
    let parcel = item(Some(900), Some(30), Some(20), Some(8));
    assert_eq!(parcel.length_width_height(), Some(58));
    assert_eq!(parcel.shortest_side(), Some(8));
    assert_eq!(parcel.longest_side(), Some(30));
    assert_eq!(parcel.shortest_longest_side(), Some(38));

    let partial = item(None, None, Some(12), None);
    assert_eq!(partial.length_width_height(), Some(12));
    assert_eq!(partial.shortest_side(), Some(12));
    assert_eq!(partial.longest_side(), Some(12));
    assert_eq!(partial.shortest_longest_side(), Some(24));

    let unsized_item = item(Some(100), None, None, None);
    assert_eq!(unsized_item.length_width_height(), None);
    assert_eq!(unsized_item.shortest_side(), None);
    assert_eq!(unsized_item.longest_side(), None);
    assert_eq!(unsized_item.shortest_longest_side(), None);

    let flat = item(None, Some(0), Some(0), Some(0));
    assert_eq!(flat.length_width_height(), None);
    assert_eq!(flat.shortest_side(), Some(0));
}

#[test]
fn item_bounds_on_sums() {
    let parcel = item(Some(900), Some(30), Some(20), Some(8));
    assert!(parcel.is_smaller_or_equal_length_with_height_max(Some(58)));
    assert!(!parcel.is_smaller_or_equal_length_with_height_max(Some(57)));
    assert!(parcel.is_smaller_or_equal_length_with_height_max(None));
    assert!(parcel.is_smaller_or_equal_longest_side_max(Some(30)));
    assert!(!parcel.is_smaller_or_equal_longest_side_max(Some(29)));
    assert!(parcel.is_smaller_or_equal_shortest_longest_side_max(Some(38)));
    assert!(!parcel.is_smaller_or_equal_shortest_longest_side_max(Some(37)));
    let unsized_item = item(Some(100), None, None, None);
    assert!(!unsized_item.is_smaller_or_equal_length_with_height_max(Some(100)));
    assert!(!unsized_item.is_smaller_or_equal_longest_side_max(Some(100)));
    assert!(!unsized_item.is_smaller_or_equal_shortest_longest_side_max(Some(100)));
    assert!(unsized_item.is_smaller_or_equal_longest_side_max(None));
}

#[test]
fn item_max_dimensions_rank_sides() {
    let bound = Some(limits(60, 30, 15));
    // Sides are compared largest against largest, whatever their names.
    assert!(item(None, Some(15), Some(60), Some(30)).is_smaller_or_equal_max_dimensions(bound));
    assert!(!item(None, Some(15), Some(61), Some(30)).is_smaller_or_equal_max_dimensions(bound));
    assert!(!item(None, Some(16), Some(16), Some(16)).is_smaller_or_equal_max_dimensions(bound));
    // Only as many ranks as both give are compared.
    assert!(item(None, Some(40), None, None).is_smaller_or_equal_max_dimensions(bound));
    let one_bound = Some(Dimensions { length: Some(50), width: None, height: None, ..limits(0, 0, 0) });
    assert!(item(None, Some(50), Some(49), Some(48)).is_smaller_or_equal_max_dimensions(one_bound));
    assert!(!item(None, Some(20), Some(51), Some(48)).is_smaller_or_equal_max_dimensions(one_bound));
    assert!(item(None, Some(500), None, None).is_smaller_or_equal_max_dimensions(None));
}

#[test]
fn item_max_weight() {
    assert!(item(Some(2000), None, None, None).is_larger_or_equal_max_weight(Some(2000)));
    assert!(!item(Some(2001), None, None, None).is_larger_or_equal_max_weight(Some(2000)));
    assert!(item(None, None, None, None).is_larger_or_equal_max_weight(Some(1)));
    assert!(item(Some(5), None, None, None).is_larger_or_equal_max_weight(None));
}

#[test]
fn item_rate_match() {
    let class = rate_class(
        "Small",
        2000,
        Some(Dimensions {
            length_width_height_max: Some(90),
            longest_side_max: Some(60),
            shortest_longest_side_max: Some(70),
            ..limits(60, 30, 15)
        }),
        Vec::new(),
    );
    assert!(item(Some(1500), Some(30), Some(20), Some(2)).is_rate_match(&class));
    assert!(!item(Some(2500), Some(30), Some(20), Some(2)).is_rate_match(&class));
    assert!(!item(Some(1500), Some(60), Some(30), Some(15)).is_rate_match(&class)); // sum 105 > 90
    assert!(!item(Some(1500), Some(60), Some(20), Some(14)).is_rate_match(&class)); // 14 + 60 > 70
    assert!(!item(Some(1500), None, None, None).is_rate_match(&class));
    let unlimited = rate_class("Any", 2000, None, Vec::new());
    assert!(item(Some(1500), None, None, None).is_rate_match(&unlimited));
}

#[test]
fn rate_match_ignores_orientation() {
    let class = rate_class("Small", 2000, Some(limits(60, 30, 15)), Vec::new());
    let a = item(Some(1000), Some(60), Some(30), Some(15));
    let b = item(Some(1000), Some(15), Some(60), Some(30));
    let c = item(Some(1000), Some(30), Some(15), Some(61));
    let d = item(Some(1000), Some(61), Some(30), Some(15));
    assert_eq!(a.is_rate_match(&class), b.is_rate_match(&class));
    assert!(a.is_rate_match(&class));
    assert_eq!(c.is_rate_match(&class), d.is_rate_match(&class));
    assert!(!c.is_rate_match(&class));
}

#[test]
fn rate_match_lighter_item_still_fits() {
    let class = rate_class("Small", 2000, Some(limits(60, 30, 15)), Vec::new());
    assert!(item(Some(2000), Some(10), Some(10), Some(10)).is_rate_match(&class));
    assert!(item(Some(100), Some(10), Some(10), Some(10)).is_rate_match(&class));
}

#[test]
fn sums_fit_rate_detects_overflow() {
    let class = rate_class(
        "Sum",
        2000,
        Some(Dimensions { length_width_height_max: Some(100), ..limits(u32::MAX, u32::MAX, u32::MAX) }),
        Vec::new(),
    );
    let huge = item(Some(10), Some(u32::MAX), Some(u32::MAX), Some(1));
    assert!(!huge.sums_fit_rate(&class));
    let small = item(Some(10), Some(10), Some(10), Some(10));
    assert!(small.sums_fit_rate(&class));
    let heavy_huge = item(Some(5000), Some(u32::MAX), Some(u32::MAX), Some(1));
    assert!(heavy_huge.sums_fit_rate(&class));
}

#[test]
fn sort_descending_ranks_values() {
    assert_eq!(sort_descending(&vec![3, 1, 2]), vec![3, 2, 1]);
    assert_eq!(sort_descending(&vec![5, 5, 1, 9]), vec![9, 5, 5, 1]);
    assert_eq!(sort_descending(&Vec::new()), Vec::<u32>::new());
}

#[test]
fn rates_unknown_source_country() {
    let db = sample_database();
    let q = query("ES", "FR", vec![item(Some(100), Some(10), Some(10), Some(1))], None, None);
    assert_eq!(db.get_rates(&q).unwrap_err(), ShippingError::CountryNotFound);
    assert_eq!(db.get_best_rates(&q).unwrap_err(), ShippingError::CountryNotFound);
    assert_eq!(db.get_total_shipping_cost(&q).unwrap_err(), ShippingError::CountryNotFound);
    assert_eq!(ShippingError::CountryNotFound.message(), "Country not found");
}

#[test]
fn rates_no_provider_left() {
    let db = sample_database();
    let by_provider = query("DE", "FR", vec![item(Some(100), Some(10), Some(10), Some(1))], Some(Provider::UPS), None);
    assert_eq!(db.get_rates(&by_provider).unwrap_err(), ShippingError::NoProvidersFound);
    let by_level = query("FR", "DE", vec![item(Some(100), Some(10), Some(10), Some(1))], None, Some(ServiceLevel::Express));
    assert_eq!(db.get_rates(&by_level).unwrap_err(), ShippingError::NoProvidersFound);
    assert_eq!(ShippingError::NoProvidersFound.message(), "No providers found");
}

#[test]
fn rates_list_every_fitting_class_in_order() {
    let db = sample_database();
    let q = query("DE", "FR", vec![item(Some(1500), Some(30), Some(20), Some(2))], None, None);
    let results = db.get_rates(&q).unwrap();
    assert_eq!(results.len(), 1);
    assert_eq!(results[0].item_identifier, "parcel");
    let names: Vec<&str> = results[0].applicable_services.iter().map(|s| s.rate_info.name.as_str()).collect();
    assert_eq!(names, vec!["Small", "Large", "Classic"]);
    let prices: Vec<u64> = results[0].applicable_services.iter().map(|s| s.rate.online_price).collect();
    // The first price group of "Small" does not cover France.
    assert_eq!(prices, vec![649, 1649, 649]);
    assert_eq!(results[0].applicable_services[2].provider.id, Provider::DPD);
}

#[test]
fn rates_price_for_destination() {
    let db = sample_database();
    let q = query("DE", "BE", vec![item(Some(1500), Some(30), Some(20), Some(2))], Some(Provider::DHL), None);
    let results = db.get_rates(&q).unwrap();
    assert_eq!(results[0].applicable_services.len(), 1);
    assert_eq!(results[0].applicable_services[0].rate.online_price, 549);
}

#[test]
fn rates_provider_choice_keeps_only_that_provider() {
    let db = sample_database();
    let q = query("DE", "FR", vec![item(Some(1500), Some(30), Some(20), Some(2))], Some(Provider::DPD), Some(ServiceLevel::Standard));
    let results = db.get_rates(&q).unwrap();
    assert_eq!(results[0].applicable_services.len(), 1);
    assert_eq!(results[0].applicable_services[0].provider.id, Provider::DPD);
    assert_eq!(results[0].applicable_services[0].service.service, ServiceLevel::Standard);
}

#[test]
fn best_rates_take_first_cheapest() {
    let db = sample_database();
    let q = query(
        "DE",
        "FR",
        vec![item(Some(1500), Some(30), Some(20), Some(2)), item(Some(9000), Some(200), Some(1), Some(1)), item(Some(4000), Some(40), Some(30), Some(20))],
        None,
        None,
    );
    let best = db.get_best_rates(&q).unwrap();
    assert_eq!(best.len(), 3);
    // "Small" and "Classic" cost the same: the first listed is kept.
    assert_eq!(best[0].applicable_services.len(), 1);
    assert_eq!(best[0].applicable_services[0].rate_info.name, "Small");
    assert_eq!(best[1].applicable_services[0].rate_info.name, "Classic");
    assert_eq!(best[2].applicable_services[0].rate.online_price, 649);
    assert_eq!(db.get_total_shipping_cost(&q).unwrap(), 649 + 649 + 649);
}

#[test]
fn items_without_rate_are_left_out() {
    let db = sample_database();
    let q = query(
        "DE",
        "FR",
        vec![item(Some(40000), Some(10), Some(10), Some(10)), item(Some(100), Some(10), Some(10), Some(10))],
        Some(Provider::DHL),
        None,
    );
    let results = db.get_rates(&q).unwrap();
    assert_eq!(results.len(), 1);
    assert_eq!(db.get_total_shipping_cost(&q).unwrap(), 649);
    let empty = query("DE", "FR", Vec::new(), None, None);
    assert!(db.get_rates(&empty).unwrap().is_empty());
    assert_eq!(db.get_total_shipping_cost(&empty).unwrap(), 0);
}

#[test]
fn insert_country_replaces_providers() {
    let mut db = sample_database();
    let q = query("FR", "DE", vec![item(Some(100), Some(10), Some(10), Some(1))], None, None);
    assert_eq!(db.get_total_shipping_cost(&q).unwrap(), 1495);
    let cheaper = ProviderInfo {
        name: "La Poste".to_string(),
        id: Provider::LaPoste,
        services: vec![standard(vec![rate_class("Lettre", 500, None, vec![price_group(&["DE"], 300)])])],
    };
    db.insert_country("FR".to_string(), vec![cheaper]);
    assert_eq!(db.get_total_shipping_cost(&q).unwrap(), 300);
    let copy = db.clone();
    assert_eq!(copy.get_total_shipping_cost(&q).unwrap(), 300);
}

#[test]
fn query_sums_fit_checks_every_item() {
    let db = sample_database();
    let ok = query("DE", "FR", vec![item(Some(100), Some(10), Some(10), Some(1))], None, None);
    assert!(db.query_sums_fit(&ok));
    let lwh_db = {
        let mut db = ShippingDatabase::new();
        db.insert_country(
            "DE".to_string(),
            vec![ProviderInfo {
                name: "DHL".to_string(),
                id: Provider::DHL,
                services: vec![standard(vec![rate_class(
                    "Sum",
                    2000,
                    Some(Dimensions { length_width_height_max: Some(100), ..limits(u32::MAX, u32::MAX, u32::MAX) }),
                    Vec::new(),
                )])],
            }],
        );
        db
    };
    let huge = query("DE", "FR", vec![item(Some(10), Some(u32::MAX), Some(u32::MAX), Some(1))], None, None);
    assert!(!lwh_db.query_sums_fit(&huge));
    assert!(lwh_db.query_sums_fit(&ok));
}

#[test]
fn rates_ignore_subdivisions() {
    let db = sample_database();
    let plain = query("DE", "FR", vec![item(Some(1500), Some(30), Some(20), Some(2))], None, None);
    let mut with_regions = query("DE", "FR", vec![item(Some(1500), Some(30), Some(20), Some(2))], None, None);
    with_regions.source_region = Region::new("DE".to_string(), Some("BY".to_string())).unwrap();
    with_regions.destination_region = Region::new("FR".to_string(), Some("75C".to_string())).unwrap();
    let a: Vec<u64> = db.get_rates(&plain).unwrap()[0].applicable_services.iter().map(|s| s.rate.online_price).collect();
    let b: Vec<u64> = db.get_rates(&with_regions).unwrap()[0].applicable_services.iter().map(|s| s.rate.online_price).collect();
    assert_eq!(a, b);
    assert_eq!(db.get_total_shipping_cost(&plain).unwrap(), db.get_total_shipping_cost(&with_regions).unwrap());
}

#[test]
fn rates_of_joined_items_follow_each_other() {
    let db = sample_database();
    let mut first_item = item(Some(1500), Some(30), Some(20), Some(2));
    first_item.identifier = "first".to_string();
    let mut second_item = item(Some(4000), Some(40), Some(30), Some(20));
    second_item.identifier = "second".to_string();
    let first = query("DE", "FR", vec![first_item.clone()], None, None);
    let second = query("DE", "FR", vec![second_item.clone()], None, None);
    let joined = query("DE", "FR", vec![first_item, second_item], None, None);
    let a = db.get_rates(&first).unwrap();
    let b = db.get_rates(&second).unwrap();
    let ab = db.get_rates(&joined).unwrap();
    assert_eq!(ab.len(), a.len() + b.len());
    assert_eq!(ab[0].item_identifier, a[0].item_identifier);
    assert_eq!(ab[1].item_identifier, b[0].item_identifier);
    assert_eq!(ab[1].applicable_services.len(), b[0].applicable_services.len());
}

#[test]
fn smaller_item_or_larger_box_still_fits() {
    let bound = Some(limits(60, 30, 15));
    let larger = Some(limits(70, 30, 20));
    let parcel = item(None, Some(15), Some(60), Some(30));
    assert!(parcel.is_smaller_or_equal_max_dimensions(bound));
    assert!(item(None, Some(10), Some(60), Some(2)).is_smaller_or_equal_max_dimensions(bound));
    assert!(parcel.is_smaller_or_equal_max_dimensions(larger));
    assert!(item(None, Some(1), Some(1), Some(1)).is_smaller_or_equal_max_dimensions(larger));
}
