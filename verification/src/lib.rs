//! Standard shipping rates between countries, by provider, service level,
//! weight and size of the items to ship.
//!
//! The rate tables live in a [`provider::ShippingDatabase`], keyed by the
//! ISO 3166-1 alpha-2 code of the country of origin. A
//! [`provider::ShippingRateQuery`] names the origin and destination, the items,
//! and optionally a provider and a service level; the database answers with
//! the rates that fit each item, the cheapest of them, or the total cost.
//!
//! Prices are held as whole cents.

pub mod country_codes;
pub mod errors;
pub mod item;
pub mod laws;
pub mod provider;
pub mod sorting;
pub mod types;

pub use errors::InputValidationError;
pub use types::{
    Dimensions, InsuranceOption, Provider, ProviderInfo, Rate, RateInfo, Region, ServiceInfo,
    ServiceLevel, ShippingTime, ShippingTimeEntry,
};
pub use item::ShippingItem;
pub use provider::{
    ApplicableService, ShippingDatabase, ShippingError, ShippingRateItemResult, ShippingRateQuery,
    ShippingRateQueryResult,
};
