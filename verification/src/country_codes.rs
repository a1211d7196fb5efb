//! The ISO 3166 code tables of the `rust_iso3166` crate.
use vstd::prelude::*;

verus! {

/// A country of the ISO 3166-1 table, as `rust_iso3166` hands it out.
#[verifier::external_type_specification]
#[verifier::external_body]
pub struct ExCountryCode(rust_iso3166::CountryCode);

/// Whether `code` is an ISO 3166-1 alpha-2 code in the table of `rust_iso3166`.
/// The table is fixed, so this depends on `code` alone.
pub uninterp spec fn iso3166_1_alpha2_assigned(code: Seq<char>) -> bool;

/// Whether `code` is an ISO 3166-1 alpha-2 code in the table of `rust_iso3166`
/// whose country has a list of ISO 3166-2 subdivisions there. The tables are
/// fixed, so this depends on `code` alone.
pub uninterp spec fn iso3166_2_subdivisions_listed(code: Seq<char>) -> bool;

/// Whether `code` is an ISO 3166-2 subdivision code (such as "DE-BY") in the
/// table of `rust_iso3166`. The table is fixed, so this depends on `code` alone.
pub uninterp spec fn iso3166_2_code_assigned(code: Seq<char>) -> bool;

/// Calls `rust_iso3166::from_alpha2`, a lookup of `code` in a fixed table.
/// Trusted: a country comes back exactly when `code` is in that table. What
/// the returned country holds is not stated.
#[verifier::external_body]
pub(crate) fn country_from_alpha2(code: &str) -> (country: Option<rust_iso3166::CountryCode>)
    ensures
        country is Some <==> iso3166_1_alpha2_assigned(code@),
{
    rust_iso3166::from_alpha2(code)
}

/// Calls `rust_iso3166::CountryCode::subdivisions` on the country that
/// `rust_iso3166::from_alpha2` finds for `code`, and tells whether it has a
/// list of ISO 3166-2 subdivisions. Both are lookups in fixed tables keyed by
/// the alpha-2 code. Trusted: the answer is `iso3166_2_subdivisions_listed(code)`.
#[verifier::external_body]
pub(crate) fn country_has_subdivisions(code: &str) -> (listed: bool)
    ensures
        listed == iso3166_2_subdivisions_listed(code@),
{
    match rust_iso3166::from_alpha2(code) {
        Some(country) => country.subdivisions().is_some(),
        None => false,
    }
}

/// Calls `rust_iso3166::iso3166_2::from_code`, a lookup of `code` in a fixed
/// table. Trusted: it finds a subdivision exactly when `code` is in that table.
#[verifier::external_body]
pub(crate) fn subdivision_code_assigned(code: &str) -> (found: bool)
    ensures
        found == iso3166_2_code_assigned(code@),
{
    rust_iso3166::iso3166_2::from_code(code).is_some()
}

} // verus!
