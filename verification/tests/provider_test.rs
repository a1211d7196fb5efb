use shipping_rates::item::ShippingItem;
use shipping_rates::provider::{ShippingDatabase, ShippingRateQuery};
use shipping_rates::types::{
    Dimensions, Provider, ProviderInfo, Rate, RateInfo, Region, ServiceInfo, ServiceLevel,
    ShippingTime, ShippingTimeEntry,
};

fn euros(cents: u64) -> f64 {
    cents as f64 / 100.0
}

fn total_euros(cents: u128) -> f64 {
    cents as f64 / 100.0
}

fn rate(countries: &[&str], cents: u64) -> Rate {
    Rate {
        countries: countries.iter().map(|c| c.to_string()).collect(),
        online_price: cents,
        vat_exemption: false,
    }
}

fn sides(length: u32, width: u32, height: u32) -> Dimensions {
    Dimensions {
        length: Some(length),
        width: Some(width),
        height: Some(height),
        length_width_height_max: None,
        longest_side_max: None,
        shortest_longest_side_max: None,
    }
}

fn rate_info(name: &str, max_weight: u32, max_dimensions: Option<Dimensions>, rates: Vec<Rate>) -> RateInfo {
    RateInfo {
        name: name.to_string(),
        max_weight,
        max_dimensions,
        insurance_included: false,
        insurance_amount: None,
        insurance_optional: None,
        tracking_included: true,
        rate: rates,
        vat_exemption: false,
        vat_exemption_text: None,
    }
}

fn service(level: ServiceLevel, min_days: u8, max_days: u8, rates: Vec<RateInfo>) -> ServiceInfo {
    ServiceInfo {
        service: level,
        zone: None,
        shipping_time_days: vec![ShippingTimeEntry {
            key: "FR".to_string(),
            days: ShippingTime { min: min_days, max: max_days },
        }],
        rates,
    }
}

/// The rate tables of Germany and France used by these tests.
fn setup() -> ShippingDatabase {
    let parcel_limits = Dimensions {
        length: Some(175),
        width: None,
        height: None,
        length_width_height_max: None,
        longest_side_max: Some(175),
        shortest_longest_side_max: Some(200),
    };
    let dhl = ProviderInfo {
        name: "DHL".to_string(),
        id: Provider::DHL,
        services: vec![
            service(
                ServiceLevel::Standard,
                3,
                6,
                vec![
                    rate_info(
                        "Paeckchen",
                        2000,
                        Some(sides(60, 30, 15)),
                        vec![rate(&["AT", "BE", "NL"], 549), rate(&["FR", "IT"], 649)],
                    ),
                    rate_info("Paket 5 kg", 5000, Some(sides(120, 60, 60)), vec![rate(&["FR", "IT"], 1649)]),
                    rate_info("Paket 31.5 kg", 31500, Some(sides(120, 60, 60)), vec![rate(&["FR"], 3899)]),
                ],
            ),
            service(
                ServiceLevel::Express,
                1,
                2,
                vec![
                    rate_info("Express 1 kg", 1000, Some(sides(120, 60, 60)), vec![rate(&["FR"], 5590)]),
                    rate_info("Express 5 kg", 5000, Some(sides(120, 60, 60)), vec![rate(&["FR"], 7590)]),
                ],
            ),
        ],
    };
    let dpd = ProviderInfo {
        name: "DPD".to_string(),
        id: Provider::DPD,
        services: vec![service(
            ServiceLevel::Standard,
            2,
            4,
            vec![
                rate_info("Small", 3000, Some(parcel_limits), vec![rate(&["FR", "BE"], 1290)]),
                rate_info("Classic", 31500, Some(parcel_limits), vec![rate(&["FR", "BE"], 1790)]),
            ],
        )],
    };
    let la_poste = ProviderInfo {
        name: "La Poste".to_string(),
        id: Provider::LaPoste,
        services: vec![service(
            ServiceLevel::Standard,
            2,
            5,
            vec![rate_info(
                "Colissimo",
                30000,
                Some(Dimensions {
                    length: None,
                    width: None,
                    height: None,
                    length_width_height_max: Some(150),
                    longest_side_max: None,
                    shortest_longest_side_max: None,
                }),
                vec![rate(&["DE", "BE"], 1495)],
            )],
        )],
    };
    let mut db = ShippingDatabase::new();
    db.insert_country("DE".to_string(), vec![dhl, dpd]);
    db.insert_country("FR".to_string(), vec![la_poste]);
    db
}

#[test]
fn test_dhl_express_1kg_to_france() {
    let db = setup();
    let query = ShippingRateQuery {
        source_region: Region::new("DE".to_string(), None).expect("Country code to be valid"),
        destination_region: Region::new("FR".to_string(), None).expect("Country code to be valid"),
        items: vec![ShippingItem {
            identifier: "test_item".to_string(),
            weight: Some(900),
            length: Some(30),
            width: Some(20),
            height: Some(8),
        }],
        provider: None,
        service_level: Some(ServiceLevel::Express),
    };

    let results = db.get_rates(&query).unwrap();
    assert!(!results.is_empty());
    let first_result = &results[0];
    assert_eq!(euros(first_result.applicable_services[0].rate.online_price), 55.90);
}

#[test]
fn test_dpd_standard_germany_to_france() {
    let db = setup();
    let query = ShippingRateQuery {
        source_region: Region::new("DE".to_string(), None).expect("Country code to be valid"),
        destination_region: Region::new("FR".to_string(), None).expect("Country code to be valid"),
        items: vec![ShippingItem {
            identifier: "small_package".to_string(),
            weight: Some(1500),
            length: Some(30),
            width: Some(20),
            height: Some(2),
        }],
        provider: Some(Provider::DPD),
        service_level: Some(ServiceLevel::Standard),
    };

    let results = db.get_total_shipping_cost(&query).unwrap();
    assert!((total_euros(results) - 12.90).abs() < 0.001);
}

#[test]
fn test_dhl_standard_2kg_to_france() {
    let db = setup();
    let query = ShippingRateQuery {
        source_region: Region::new("DE".to_string(), None).expect("Country code to be valid"),
        destination_region: Region::new("FR".to_string(), None).expect("Country code to be valid"),
        items: vec![ShippingItem {
            identifier: "small_package".to_string(),
            weight: Some(1500),
            length: Some(30),
            width: Some(20),
            height: Some(2),
        }],
        provider: None,
        service_level: Some(ServiceLevel::Standard),
    };

    let results = db.get_rates(&query).unwrap();
    assert!(!results.is_empty());
    let first_service = &results[0].applicable_services[0];
    assert_eq!(first_service.rate_info.max_weight, 2000);
    assert_eq!(euros(first_service.rate.online_price), 6.49);
}

#[test]
fn test_package_too_heavy() {
    let db = setup();
    let query = ShippingRateQuery {
        source_region: Region::new("DE".to_string(), None).expect("Country code to be valid"),
        destination_region: Region::new("FR".to_string(), None).expect("Country code to be valid"),
        items: vec![ShippingItem {
            identifier: "heavy_package".to_string(),
            weight: Some(35000), // 35kg
            length: Some(60),
            width: Some(30),
            height: Some(15),
        }],
        provider: None,
        service_level: Some(ServiceLevel::Standard),
    };

    let results = db.get_rates(&query).unwrap();
    assert!(results.is_empty());
}

#[test]
fn test_package_dimensions_check() {
    let db = setup();
    let query = ShippingRateQuery {
        source_region: Region::new("DE".to_string(), None).expect("Country code to be valid"),
        destination_region: Region::new("FR".to_string(), None).expect("Country code to be valid"),
        items: vec![ShippingItem {
            identifier: "large_package".to_string(),
            weight: Some(1000),
            length: Some(150), // Exceeds maximum dimensions
            width: Some(80),
            height: Some(70),
        }],
        provider: None,
        service_level: Some(ServiceLevel::Standard),
    };

    let results = db.get_rates(&query).unwrap();
    assert!(results.is_empty());
}

#[test]
fn test_multiple_items() {
    let db = setup();
    let query = ShippingRateQuery {
        source_region: Region::new("DE".to_string(), None).expect("Country code to be valid"),
        destination_region: Region::new("FR".to_string(), None).expect("Country code to be valid"),
        items: vec![
            ShippingItem {
                identifier: "small_item".to_string(),
                weight: Some(500),
                length: Some(20),
                width: Some(15),
                height: Some(2),
            },
            ShippingItem {
                identifier: "medium_item".to_string(),
                weight: Some(4000),
                length: Some(40),
                width: Some(30),
                height: Some(20),
            },
        ],
        provider: None,
        service_level: Some(ServiceLevel::Standard),
    };

    let results = db.get_rates(&query).unwrap();
    assert_eq!(results.len(), 2);
}

#[test]
fn test_get_best_rates() {
    let db = setup();
    let query = ShippingRateQuery {
        source_region: Region::new("DE".to_string(), None).expect("Country code to be valid"),
        destination_region: Region::new("FR".to_string(), None).expect("Country code to be valid"),
        items: vec![ShippingItem {
            identifier: "item1".to_string(),
            weight: Some(1500),
            length: Some(30),
            width: Some(20),
            height: Some(2),
        }],
        provider: None,
        service_level: Some(ServiceLevel::Standard),
    };

    let results = db.get_best_rates(&query).unwrap();
    assert_eq!(results.len(), 1);
    assert_eq!(results[0].applicable_services.len(), 1);
    assert_eq!(euros(results[0].applicable_services[0].rate.online_price), 6.49);
}

#[test]
fn test_get_total_shipping_cost() {
    let db = setup();
    let query = ShippingRateQuery {
        source_region: Region::new("DE".to_string(), None).expect("Country code to be valid"),
        destination_region: Region::new("FR".to_string(), None).expect("Country code to be valid"),
        items: vec![
            ShippingItem {
                identifier: "item1".to_string(),
                weight: Some(1500),
                length: Some(30),
                width: Some(20),
                height: Some(2),
            },
            ShippingItem {
                identifier: "item2".to_string(),
                weight: Some(4000),
                length: Some(40),
                width: Some(30),
                height: Some(20),
            },
        ],
        provider: None,
        service_level: Some(ServiceLevel::Standard),
    };

    let total_cost = db.get_total_shipping_cost(&query).unwrap();
    assert!((total_euros(total_cost) - 22.98).abs() < 0.001);
}

#[test]
fn test_get_best_rates_express() {
    let db = setup();
    let query = ShippingRateQuery {
        source_region: Region::new("DE".to_string(), None).expect("Country code to be valid"),
        destination_region: Region::new("FR".to_string(), None).expect("Country code to be valid"),
        items: vec![ShippingItem {
            identifier: "express_item".to_string(),
            weight: Some(900),
            length: Some(30),
            width: Some(20),
            height: Some(8),
        }],
        provider: None,
        service_level: Some(ServiceLevel::Express),
    };

    let results = db.get_best_rates(&query).unwrap();
    assert_eq!(euros(results[0].applicable_services[0].rate.online_price), 55.90);
}
