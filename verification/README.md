# shipping_rates

Standard shipping rates between countries, by provider, service level, and the
weight and size of the items to ship. The library is written in Verus: every
function in `src/` carries a contract that Verus proves, except the three
trusted wrappers around the ISO 3166 tables of `rust_iso3166`
(`src/country_codes.rs`), whose contracts are assumed.

## Layout

- `src/types.rs`: providers, services, rate classes and prices (in cents),
  regions, with their mathematical models; `Region::new` checks country and
  subdivision codes against the ISO 3166 tables.
- `src/country_codes.rs`: the ISO 3166 tables of `rust_iso3166`, behind
  trusted wrappers.
- `src/item.rs`: the items to ship and the size and weight checks against a
  rate class; laws on orientation and weight.
- `src/sorting.rs`: ranking of sides from the largest down.
- `src/provider.rs`: the rate database, queries, and the answers: all rates
  that fit each item, the cheapest one, the total cost.
- `src/laws.rs`: laws of the answers: soundness, completeness, cheapest
  choice and total cost.
- `app/lib.rs`: JSON loading with serde, and the same queries with prices in
  euros and boxed errors.

## Usage

```rust
let db = ShippingDatabase::from_file("shipping_rates.json").unwrap();
let query = ShippingRateQuery {
    source_region: Region::new("DE".to_string(), None).expect("Country code to be valid"),
    destination_region: Region::new("FR".to_string(), None).expect("Country code to be valid"),
    items: vec![ShippingItem {
        identifier: "small_package".to_string(),
        weight: Some(1500),
        length: Some(30),
        width: Some(20),
        height: Some(2),
    }],
    provider: Some(Provider::DPD),
    service_level: Some(ServiceLevel::Standard),
};
let total = db.get_total_shipping_cost(&query).unwrap();
```
