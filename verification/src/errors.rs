use vstd::prelude::*;

verus! {

/// Why a country or region code was refused.
#[derive(Debug, PartialEq, Eq)]
pub enum InputValidationError {
    /// The country is no ISO 3166-1 alpha-2 code.
    InvalidCountryCode(String),
    /// A region was given for a country that has no ISO 3166-2 subdivisions.
    UnexpectedRegionCode(String),
    /// The region is no ISO 3166-2 subdivision of the country.
    InvalidRegionCode(String),
}

} // verus!
