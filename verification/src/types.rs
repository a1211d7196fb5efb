use vstd::prelude::*;

use crate::country_codes::{
    country_from_alpha2, country_has_subdivisions, iso3166_1_alpha2_assigned, iso3166_2_code_assigned,
    iso3166_2_subdivisions_listed, subdivision_code_assigned,
};
use crate::errors::InputValidationError;

verus! {

/// A shipping company.
#[derive(Debug, Clone, Copy, PartialEq, Eq, Structural)]
pub enum Provider {
    UPS,
    FedEx,
    DHL,
    USPS,
    LaPoste,
    DPD,
}

/// How fast a parcel travels.
#[derive(Debug, Clone, Copy, PartialEq, Eq, Structural)]
pub enum ServiceLevel {
    Standard,
    Express,
}

/// Delivery time in days.
#[derive(Debug, Clone, Copy, PartialEq, Eq, Structural)]
pub struct ShippingTime {
    pub min: u8,
    pub max: u8,
}

/// Limits on the size of an item, in centimetres.
///
/// `length`, `width` and `height` bound the sides of an item regardless of its
/// orientation: the longest side against the largest limit, and so on.
#[derive(Debug, Clone, Copy, PartialEq, Eq, Structural)]
pub struct Dimensions {
    pub length: Option<u32>,
    pub width: Option<u32>,
    pub height: Option<u32>,
    /// Bound on length + width + height.
    pub length_width_height_max: Option<u32>,
    /// Bound on the longest side.
    pub longest_side_max: Option<u32>,
    /// Bound on the shortest side plus the longest side.
    pub shortest_longest_side_max: Option<u32>,
}

/// Insurance that can be bought on top of a rate.
#[derive(Debug, Clone, Copy, PartialEq, Eq, Structural)]
pub struct InsuranceOption {
    /// Price in cents.
    pub online_price: u64,
    pub insurance_amount: u32,
}

/// One entry of the delivery time table of a service.
#[derive(Debug)]
pub struct ShippingTimeEntry {
    pub key: String,
    pub days: ShippingTime,
}

/// The price of a rate for a group of destination countries.
#[derive(Debug)]
pub struct Rate {
    /// ISO 3166-1 alpha-2 codes of the destination countries.
    pub countries: Vec<String>,
    /// Price in cents.
    pub online_price: u64,
    pub vat_exemption: bool,
}

/// A rate class of a service: the limits an item must meet, and the prices.
#[derive(Debug)]
pub struct RateInfo {
    pub name: String,
    /// Heaviest item accepted, in grams.
    pub max_weight: u32,
    pub max_dimensions: Option<Dimensions>,
    pub insurance_included: bool,
    pub insurance_amount: Option<u32>,
    pub insurance_optional: Option<Vec<InsuranceOption>>,
    pub tracking_included: bool,
    pub rate: Vec<Rate>,
    pub vat_exemption: bool,
    pub vat_exemption_text: Option<String>,
}

/// A service of a provider, at one service level.
#[derive(Debug)]
pub struct ServiceInfo {
    pub service: ServiceLevel,
    pub zone: Option<String>,
    /// Delivery times, each under a key. Nothing in this crate reads them or
    /// relies on the keys being distinct; `delivery_keys_distinct` says when they are.
    pub shipping_time_days: Vec<ShippingTimeEntry>,
    pub rates: Vec<RateInfo>,
}

/// A provider and the services it offers from one country.
#[derive(Debug)]
pub struct ProviderInfo {
    pub name: String,
    pub id: Provider,
    pub services: Vec<ServiceInfo>,
}

/// A country, and optionally one of its subdivisions.
#[derive(Debug)]
pub struct Region {
    /// ISO 3166-1 alpha-2 code.
    pub country: String,
    /// ISO 3166-2 subdivision code, without the country prefix.
    pub region: Option<String>,
}

// ---------------------------------------------------------------------------
// Mathematical models
// ---------------------------------------------------------------------------

pub struct ShippingTimeEntryModel {
    pub key: Seq<char>,
    pub days: ShippingTime,
}

pub struct RateModel {
    pub countries: Seq<Seq<char>>,
    pub online_price: u64,
    pub vat_exemption: bool,
}

pub struct RateInfoModel {
    pub name: Seq<char>,
    pub max_weight: u32,
    pub max_dimensions: Option<Dimensions>,
    pub insurance_included: bool,
    pub insurance_amount: Option<u32>,
    pub insurance_optional: Option<Seq<InsuranceOption>>,
    pub tracking_included: bool,
    pub rate: Seq<RateModel>,
    pub vat_exemption: bool,
    pub vat_exemption_text: Option<Seq<char>>,
}

pub struct ServiceInfoModel {
    pub service: ServiceLevel,
    pub zone: Option<Seq<char>>,
    pub shipping_time_days: Seq<ShippingTimeEntryModel>,
    pub rates: Seq<RateInfoModel>,
}

pub struct ProviderInfoModel {
    pub name: Seq<char>,
    pub id: Provider,
    pub services: Seq<ServiceInfoModel>,
}

pub struct RegionModel {
    pub country: Seq<char>,
    pub region: Option<Seq<char>>,
}

impl DeepView for Provider {
    type V = Provider;

    open spec fn deep_view(&self) -> Provider {
        *self
    }
}

impl DeepView for ServiceLevel {
    type V = ServiceLevel;

    open spec fn deep_view(&self) -> ServiceLevel {
        *self
    }
}

impl DeepView for ShippingTime {
    type V = ShippingTime;

    open spec fn deep_view(&self) -> ShippingTime {
        *self
    }
}

impl DeepView for Dimensions {
    type V = Dimensions;

    open spec fn deep_view(&self) -> Dimensions {
        *self
    }
}

impl DeepView for InsuranceOption {
    type V = InsuranceOption;

    open spec fn deep_view(&self) -> InsuranceOption {
        *self
    }
}

impl View for ShippingTimeEntry {
    type V = ShippingTimeEntryModel;

    open spec fn view(&self) -> ShippingTimeEntryModel {
        ShippingTimeEntryModel { key: self.key@, days: self.days }
    }
}

impl DeepView for ShippingTimeEntry {
    type V = ShippingTimeEntryModel;

    open spec fn deep_view(&self) -> ShippingTimeEntryModel {
        self@
    }
}

impl View for Rate {
    type V = RateModel;

    open spec fn view(&self) -> RateModel {
        RateModel {
            countries: self.countries.deep_view(),
            online_price: self.online_price,
            vat_exemption: self.vat_exemption,
        }
    }
}

impl DeepView for Rate {
    type V = RateModel;

    open spec fn deep_view(&self) -> RateModel {
        self@
    }
}

impl View for RateInfo {
    type V = RateInfoModel;

    open spec fn view(&self) -> RateInfoModel {
        RateInfoModel {
            name: self.name@,
            max_weight: self.max_weight,
            max_dimensions: self.max_dimensions,
            insurance_included: self.insurance_included,
            insurance_amount: self.insurance_amount,
            insurance_optional: self.insurance_optional.deep_view(),
            tracking_included: self.tracking_included,
            rate: self.rate.deep_view(),
            vat_exemption: self.vat_exemption,
            vat_exemption_text: self.vat_exemption_text.deep_view(),
        }
    }
}

impl DeepView for RateInfo {
    type V = RateInfoModel;

    open spec fn deep_view(&self) -> RateInfoModel {
        self@
    }
}

impl View for ServiceInfo {
    type V = ServiceInfoModel;

    open spec fn view(&self) -> ServiceInfoModel {
        ServiceInfoModel {
            service: self.service,
            zone: self.zone.deep_view(),
            shipping_time_days: self.shipping_time_days.deep_view(),
            rates: self.rates.deep_view(),
        }
    }
}

impl DeepView for ServiceInfo {
    type V = ServiceInfoModel;

    open spec fn deep_view(&self) -> ServiceInfoModel {
        self@
    }
}

impl View for ProviderInfo {
    type V = ProviderInfoModel;

    open spec fn view(&self) -> ProviderInfoModel {
        ProviderInfoModel { name: self.name@, id: self.id, services: self.services.deep_view() }
    }
}

impl DeepView for ProviderInfo {
    type V = ProviderInfoModel;

    open spec fn deep_view(&self) -> ProviderInfoModel {
        self@
    }
}

impl View for Region {
    type V = RegionModel;

    open spec fn view(&self) -> RegionModel {
        RegionModel { country: self.country@, region: self.region.deep_view() }
    }
}

impl ServiceInfoModel {
    /// No key occurs twice in the delivery time table.
    pub open spec fn delivery_keys_distinct(&self) -> bool {
        forall|i: int, j: int|
            0 <= i < j < self.shipping_time_days.len() ==> self.shipping_time_days[i].key
                != self.shipping_time_days[j].key
    }
}

// ---------------------------------------------------------------------------
// Copies that keep the model
// ---------------------------------------------------------------------------

fn clone_string_option(s: &Option<String>) -> (res: Option<String>)
    ensures
        res.deep_view() == s.deep_view(),
{
    match s {
        Some(v) => Some(v.clone()),
        None => None,
    }
}

impl Clone for ShippingTimeEntry {
    fn clone(&self) -> (res: Self)
        ensures
            res@ == self@,
    {
        ShippingTimeEntry { key: self.key.clone(), days: self.days }
    }
}

impl Clone for Rate {
    fn clone(&self) -> (res: Self)
        ensures
            res@ == self@,
    {
        let countries = self.countries.clone();
        assert(countries.deep_view() =~= self.countries.deep_view());
        Rate { countries, online_price: self.online_price, vat_exemption: self.vat_exemption }
    }
}

fn clone_insurance_options(s: &Option<Vec<InsuranceOption>>) -> (res: Option<Vec<InsuranceOption>>)
    ensures
        res.deep_view() == s.deep_view(),
{
    match s {
        Some(v) => {
            let c = v.clone();
            assert(c.deep_view() =~= v.deep_view());
            Some(c)
        },
        None => None,
    }
}

impl Clone for RateInfo {
    fn clone(&self) -> (res: Self)
        ensures
            res@ == self@,
    {
        let rate = self.rate.clone();
        assert(rate.deep_view() =~= self.rate.deep_view());
        RateInfo {
            name: self.name.clone(),
            max_weight: self.max_weight,
            max_dimensions: self.max_dimensions,
            insurance_included: self.insurance_included,
            insurance_amount: self.insurance_amount,
            insurance_optional: clone_insurance_options(&self.insurance_optional),
            tracking_included: self.tracking_included,
            rate,
            vat_exemption: self.vat_exemption,
            vat_exemption_text: clone_string_option(&self.vat_exemption_text),
        }
    }
}

impl Clone for ServiceInfo {
    fn clone(&self) -> (res: Self)
        ensures
            res@ == self@,
    {
        let shipping_time_days = self.shipping_time_days.clone();
        assert(shipping_time_days.deep_view() =~= self.shipping_time_days.deep_view());
        let rates = self.rates.clone();
        assert(rates.deep_view() =~= self.rates.deep_view());
        ServiceInfo {
            service: self.service,
            zone: clone_string_option(&self.zone),
            shipping_time_days,
            rates,
        }
    }
}

impl Clone for ProviderInfo {
    fn clone(&self) -> (res: Self)
        ensures
            res@ == self@,
    {
        let services = self.services.clone();
        assert(services.deep_view() =~= self.services.deep_view());
        ProviderInfo { name: self.name.clone(), id: self.id, services }
    }
}

impl Clone for Region {
    fn clone(&self) -> (res: Self)
        ensures
            res@ == self@,
    {
        Region { country: self.country.clone(), region: clone_string_option(&self.region) }
    }
}

// ---------------------------------------------------------------------------
// Regions
// ---------------------------------------------------------------------------

/// The ISO 3166-2 code of a subdivision: the country code, a hyphen, the region code.
pub open spec fn subdivision_code(country: Seq<char>, region: Seq<char>) -> Seq<char> {
    country + seq!['-'] + region
}

impl Region {
    /// What `Region::new` answers for a country and region.
    ///
    /// An unknown country is refused as such. A known country without a region
    /// is accepted. A region of a country without a list of subdivisions is
    /// refused as unexpected; a region whose subdivision code is unknown is
    /// refused as invalid; any other region is accepted.
    pub open spec fn validation_outcome(
        country: Seq<char>,
        region: Option<Seq<char>>,
        res: Result<(), InputValidationError>,
    ) -> bool {
        if !iso3166_1_alpha2_assigned(country) {
            res matches Err(InputValidationError::InvalidCountryCode(c)) && c@ == country
        } else {
            match region {
                None => res is Ok,
                Some(r) => if !iso3166_2_subdivisions_listed(country) {
                    res matches Err(InputValidationError::UnexpectedRegionCode(c)) && c@ == r
                } else if !iso3166_2_code_assigned(subdivision_code(country, r)) {
                    res matches Err(InputValidationError::InvalidRegionCode(c)) && c@ == r
                } else {
                    res is Ok
                },
            }
        }
    }

    /// A region whose country is a known ISO 3166-1 alpha-2 code and whose
    /// region, if any, is a known ISO 3166-2 subdivision of that country.
    pub fn new(country: String, region: Option<String>) -> (res: Result<Self, InputValidationError>)
        ensures
            Self::validation_outcome(
                country@,
                region.deep_view(),
                match res {
                    Ok(_) => Ok(()),
                    Err(e) => Err(e),
                },
            ),
            res matches Ok(r) ==> r.country == country && r.region == region,
    {
        match Self::validate(country.as_str(), &region) {
            Ok(()) => Ok(Self { country, region }),
            Err(e) => Err(e),
        }
    }

    fn validate(country: &str, region: &Option<String>) -> (res: Result<(), InputValidationError>)
        ensures
            Self::validation_outcome(country@, region.deep_view(), res),
    {
        let country_info = country_from_alpha2(country);
        match country_info {
            None => Err(InputValidationError::InvalidCountryCode(String::from_str(country))),
            Some(_) => {
                if let Some(region_code) = region {
                    if !country_has_subdivisions(country) {
                        return Err(InputValidationError::UnexpectedRegionCode(region_code.clone()));
                    }
                    let mut code = String::from_str(country);
                    code.append("-");
                    code.append(region_code.as_str());
                    proof {
                        reveal_strlit("-");
                        assert(code@ =~= subdivision_code(country@, region_code@));
                    }
                    if !subdivision_code_assigned(code.as_str()) {
                        return Err(InputValidationError::InvalidRegionCode(region_code.clone()));
                    }
                }
                Ok(())
            },
        }
    }
}

} // verus!
