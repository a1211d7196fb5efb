use vstd::prelude::*;

use crate::item::ShippingItem;
use crate::types::{
    Provider, ProviderInfo, ProviderInfoModel, Rate, RateInfo, RateInfoModel, RateModel, Region,
    ServiceInfo, ServiceInfoModel, ServiceLevel,
};

verus! {

/// Query for the rates of some items from one region to another.
#[derive(Debug)]
pub struct ShippingRateQuery {
    pub source_region: Region,
    pub destination_region: Region,
    pub items: Vec<ShippingItem>,
    /// Only rates of this provider, if given.
    pub provider: Option<Provider>,
    /// Only rates at this service level, if given.
    pub service_level: Option<ServiceLevel>,
}

/// A rate that fits an item: the provider (with the services that the query
/// kept), the service, the rate class and the price for the destination.
#[derive(Debug)]
pub struct ApplicableService {
    pub provider: ProviderInfo,
    pub service: ServiceInfo,
    pub rate_info: RateInfo,
    pub rate: Rate,
}

/// The rates that fit one item.
#[derive(Debug)]
pub struct ShippingRateItemResult {
    pub item_identifier: String,
    pub applicable_services: Vec<ApplicableService>,
}

/// The rates of the items of a query and their total cost, in cents.
#[derive(Debug)]
pub struct ShippingRateQueryResult {
    pub items: Vec<ShippingRateItemResult>,
    pub total_cost: u128,
}

/// Why a query could not be answered.
#[derive(Debug, Clone, Copy, PartialEq, Eq, Structural)]
pub enum ShippingError {
    /// The database has no rates for the country of origin.
    CountryNotFound,
    /// No provider of the country of origin is left after the query's
    /// choice of provider and service level.
    NoProvidersFound,
}

impl ShippingError {
    /// The text of the error.
    pub fn message(&self) -> (text: &'static str)
        ensures
            *self == ShippingError::CountryNotFound ==> text@ == "Country not found"@,
            *self == ShippingError::NoProvidersFound ==> text@ == "No providers found"@,
    {
        match self {
            ShippingError::CountryNotFound => "Country not found",
            ShippingError::NoProvidersFound => "No providers found",
        }
    }
}

pub struct ApplicableServiceModel {
    pub provider: ProviderInfoModel,
    pub service: ServiceInfoModel,
    pub rate_info: RateInfoModel,
    pub rate: RateModel,
}

pub struct ItemResultModel {
    pub item_identifier: Seq<char>,
    pub applicable_services: Seq<ApplicableServiceModel>,
}

impl View for ApplicableService {
    type V = ApplicableServiceModel;

    open spec fn view(&self) -> ApplicableServiceModel {
        ApplicableServiceModel {
            provider: self.provider@,
            service: self.service@,
            rate_info: self.rate_info@,
            rate: self.rate@,
        }
    }
}

impl DeepView for ApplicableService {
    type V = ApplicableServiceModel;

    open spec fn deep_view(&self) -> ApplicableServiceModel {
        self@
    }
}

impl View for ShippingRateItemResult {
    type V = ItemResultModel;

    open spec fn view(&self) -> ItemResultModel {
        ItemResultModel {
            item_identifier: self.item_identifier@,
            applicable_services: self.applicable_services.deep_view(),
        }
    }
}

impl DeepView for ShippingRateItemResult {
    type V = ItemResultModel;

    open spec fn deep_view(&self) -> ItemResultModel {
        self@
    }
}

impl Clone for ApplicableService {
    fn clone(&self) -> (res: Self)
        ensures
            res@ == self@,
    {
        ApplicableService {
            provider: self.provider.clone(),
            service: self.service.clone(),
            rate_info: self.rate_info.clone(),
            rate: self.rate.clone(),
        }
    }
}

// ---------------------------------------------------------------------------
// The database
// ---------------------------------------------------------------------------

/// The providers of one country of origin.
#[derive(Debug)]
struct CountryServices {
    country: String,
    providers: Vec<ProviderInfo>,
}

/// Rate tables by country of origin (ISO 3166-1 alpha-2 code).
#[derive(Debug)]
pub struct ShippingDatabase {
    countries: Vec<CountryServices>,
}

/// The table that a list of entries with distinct countries stands for.
spec fn entries_map(entries: Seq<CountryServices>) -> Map<Seq<char>, Seq<ProviderInfoModel>>
    decreases entries.len(),
{
    if entries.len() == 0 {
        Map::empty()
    } else {
        entries_map(entries.drop_last()).insert(
            entries.last().country@,
            entries.last().providers.deep_view(),
        )
    }
}

spec fn distinct_countries(entries: Seq<CountryServices>) -> bool {
    forall|i: int, j: int|
        0 <= i < j < entries.len() ==> entries[i].country@ != entries[j].country@
}

/// In a list with distinct countries, a country is in the table exactly when
/// an entry names it, and then with that entry's providers.
proof fn lemma_entries_map(entries: Seq<CountryServices>, k: Seq<char>)
    requires
        distinct_countries(entries),
    ensures
        entries_map(entries).contains_key(k) <==> exists|i: int|
            0 <= i < entries.len() && #[trigger] entries[i].country@ == k,
        forall|i: int|
            0 <= i < entries.len() && #[trigger] entries[i].country@ == k ==> entries_map(
                entries,
            )[k] == entries[i].providers.deep_view(),
    decreases entries.len(),
{
    if entries.len() > 0 {
        let prefix = entries.drop_last();
        let last = entries.len() - 1;
        lemma_entries_map(prefix, k);
        assert forall|i: int| 0 <= i < prefix.len() implies #[trigger] prefix[i] == entries[i] by {}
        if entries[last].country@ == k {
            assert forall|i: int|
                0 <= i < entries.len() && #[trigger] entries[i].country@ == k implies i
                == last by {
                if i < last {
                    assert(entries[i].country@ != entries[last].country@);
                }
            }
        } else {
            assert forall|i: int|
                0 <= i < entries.len() && #[trigger] entries[i].country@ == k implies i
                < prefix.len() && prefix[i].country@ == k by {}
            if entries_map(entries).contains_key(k) {
                assert(entries_map(prefix).contains_key(k));
                let i = choose|i: int| 0 <= i < prefix.len() && #[trigger] prefix[i].country@ == k;
                assert(entries[i].country@ == k);
            }
            if exists|i: int| 0 <= i < entries.len() && #[trigger] entries[i].country@ == k {
                let i = choose|i: int| 0 <= i < entries.len() && #[trigger] entries[i].country@ == k;
                assert(prefix[i].country@ == k);
            }
        }
    }
}

impl View for ShippingDatabase {
    type V = Map<Seq<char>, Seq<ProviderInfoModel>>;

    closed spec fn view(&self) -> Map<Seq<char>, Seq<ProviderInfoModel>> {
        entries_map(self.countries@)
    }
}

impl ShippingDatabase {
    #[verifier::type_invariant]
    spec fn countries_distinct(&self) -> bool {
        distinct_countries(self.countries@)
    }

    /// A database without any country.
    pub fn new() -> (db: Self)
        ensures
            db@ == Map::<Seq<char>, Seq<ProviderInfoModel>>::empty(),
    {
        let db = ShippingDatabase { countries: Vec::new() };
        assert(db@ =~= Map::<Seq<char>, Seq<ProviderInfoModel>>::empty());
        db
    }

    /// Sets the providers of a country of origin, replacing any it had.
    pub fn insert_country(&mut self, country: String, providers: Vec<ProviderInfo>)
        ensures
            final(self)@ == old(self)@.insert(country@, providers.deep_view()),
    {
        proof {
            use_type_invariant(&*self);
        }
        let mut entries: Vec<CountryServices> = Vec::new();
        std::mem::swap(&mut entries, &mut self.countries);
        let ghost old_entries = entries@;
        let ghost value = providers.deep_view();
        let mut i: usize = 0;
        while i < entries.len()
            invariant
                entries@ == old_entries,
                i <= entries.len(),
                forall|j: int| 0 <= j < i ==> entries@[j].country@ != country@,
            ensures
                entries@ == old_entries,
                i <= entries.len(),
                forall|j: int| 0 <= j < i ==> entries@[j].country@ != country@,
                i < entries.len() ==> entries@[i as int].country@ == country@,
            decreases entries.len() - i,
        {
            if entries[i].country == country {
                break;
            }
            i = i + 1;
        }

        if i < entries.len() {
            let ghost at = i as int;
            entries.set(i, CountryServices { country, providers });
            proof {
                assert(entries@[at].country@ == old_entries[at].country@);
                assert(distinct_countries(entries@)) by {
                    assert forall|a: int, b: int|
                        0 <= a < b < entries@.len() implies entries@[a].country@
                        != entries@[b].country@ by {
                        assert(old_entries[a].country@ != old_entries[b].country@);
                    }
                }
                let key = entries@[at].country@;
                assert forall|k: Seq<char>|
                    #![trigger entries_map(entries@).contains_key(k)]
                    entries_map(entries@).contains_key(k) == entries_map(old_entries).insert(
                        key,
                        value,
                    ).contains_key(k) && (entries_map(entries@).contains_key(k) ==> entries_map(
                        entries@,
                    )[k] == entries_map(old_entries).insert(key, value)[k]) by {
                    lemma_entries_map(entries@, k);
                    lemma_entries_map(old_entries, k);
                    if k == key {
                        assert(entries@[at].country@ == k);
                        assert(old_entries[at].country@ == k);
                    } else {
                        assert forall|j: int|
                            0 <= j < entries@.len() implies (#[trigger] entries@[j].country@
                            == k) == (old_entries[j].country@ == k) by {
                            if j != at {
                                assert(entries@[j] == old_entries[j]);
                            }
                        }
                        if entries_map(old_entries).contains_key(k) {
                            let j = choose|j: int|
                                0 <= j < old_entries.len() && #[trigger] old_entries[j].country@
                                    == k;
                            assert(entries@[j] == old_entries[j]);
                        }
                        if entries_map(entries@).contains_key(k) {
                            let j = choose|j: int|
                                0 <= j < entries@.len() && #[trigger] entries@[j].country@ == k;
                            assert(entries@[j] == old_entries[j]);
                        }
                    }
                }
                assert(entries_map(entries@) =~= entries_map(old_entries).insert(key, value));
            }
        } else {
            let ghost entry_country = country@;
            entries.push(CountryServices { country, providers });
            proof {
                assert(entries@.drop_last() =~= old_entries);
                assert(distinct_countries(entries@)) by {
                    assert forall|a: int, b: int|
                        0 <= a < b < entries@.len() implies entries@[a].country@
                        != entries@[b].country@ by {
                        if b < old_entries.len() {
                            assert(old_entries[a].country@ != old_entries[b].country@);
                        } else {
                            assert(entries@[a] == old_entries[a]);
                        }
                    }
                }
            }
        }
        self.countries = entries;
    }
}

// ---------------------------------------------------------------------------
// What a query selects
// ---------------------------------------------------------------------------

pub open spec fn offered_by(provider: Provider) -> spec_fn(ProviderInfoModel) -> bool {
    |p: ProviderInfoModel| p.id == provider
}

pub open spec fn at_level(level: ServiceLevel) -> spec_fn(ServiceInfoModel) -> bool {
    |s: ServiceInfoModel| s.service == level
}

pub open spec fn has_services() -> spec_fn(ProviderInfoModel) -> bool {
    |p: ProviderInfoModel| p.services.len() > 0
}

/// The provider with only its services at the given level.
pub open spec fn restricted_to_level(p: ProviderInfoModel, level: ServiceLevel) -> ProviderInfoModel {
    ProviderInfoModel { name: p.name, id: p.id, services: p.services.filter(at_level(level)) }
}

pub open spec fn restrict_to_level(level: ServiceLevel) -> spec_fn(ProviderInfoModel) -> ProviderInfoModel {
    |p: ProviderInfoModel| restricted_to_level(p, level)
}

/// The providers that the query's choice of provider keeps; `None` when a
/// provider is named and none of the list is it.
pub open spec fn provider_choice(providers: Seq<ProviderInfoModel>, provider: Option<Provider>) -> Option<
    Seq<ProviderInfoModel>,
> {
    match provider {
        Some(p) => {
            let kept = providers.filter(offered_by(p));
            if kept.len() == 0 {
                None
            } else {
                Some(kept)
            }
        },
        None => Some(providers),
    }
}

/// The providers that the query's choice of service level keeps, each with
/// only its services at that level; `None` when a level is named and no
/// provider offers it.
pub open spec fn service_level_choice(
    providers: Seq<ProviderInfoModel>,
    level: Option<ServiceLevel>,
) -> Option<Seq<ProviderInfoModel>> {
    match level {
        Some(l) => {
            let kept = providers.map_values(restrict_to_level(l)).filter(has_services());
            if kept.len() == 0 {
                None
            } else {
                Some(kept)
            }
        },
        None => Some(providers),
    }
}

/// The first rate whose countries include `country`.
pub open spec fn rate_for_country(rates: Seq<RateModel>, country: Seq<char>) -> Option<RateModel>
    decreases rates.len(),
{
    if rates.len() == 0 {
        None
    } else if rates[0].countries.contains(country) {
        Some(rates[0])
    } else {
        rate_for_country(rates.drop_first(), country)
    }
}

/// The services that fit `item` among the rate classes of one service of one
/// provider, in the order of the rate classes: a rate class fits when the item
/// meets its limits and one of its rates covers the destination country.
pub open spec fn applicable_in_rates(
    provider: ProviderInfoModel,
    service: ServiceInfoModel,
    rate_infos: Seq<RateInfoModel>,
    item: ShippingItem,
    destination: Seq<char>,
) -> Seq<ApplicableServiceModel>
    decreases rate_infos.len(),
{
    if rate_infos.len() == 0 {
        Seq::empty()
    } else {
        let earlier = applicable_in_rates(
            provider,
            service,
            rate_infos.drop_last(),
            item,
            destination,
        );
        let rate_info = rate_infos.last();
        if item.matches_rate(rate_info) && rate_for_country(rate_info.rate, destination) is Some {
            earlier.push(
                ApplicableServiceModel {
                    provider,
                    service,
                    rate_info,
                    rate: rate_for_country(rate_info.rate, destination)->0,
                },
            )
        } else {
            earlier
        }
    }
}

/// The services that fit `item` among the services of one provider, in order.
pub open spec fn applicable_in_services(
    provider: ProviderInfoModel,
    services: Seq<ServiceInfoModel>,
    item: ShippingItem,
    destination: Seq<char>,
) -> Seq<ApplicableServiceModel>
    decreases services.len(),
{
    if services.len() == 0 {
        Seq::empty()
    } else {
        applicable_in_services(provider, services.drop_last(), item, destination)
            + applicable_in_rates(
            provider,
            services.last(),
            services.last().rates,
            item,
            destination,
        )
    }
}

/// The services that fit `item` among all the providers, in order of
/// provider, service and rate class.
pub open spec fn applicable_services(
    providers: Seq<ProviderInfoModel>,
    item: ShippingItem,
    destination: Seq<char>,
) -> Seq<ApplicableServiceModel>
    decreases providers.len(),
{
    if providers.len() == 0 {
        Seq::empty()
    } else {
        applicable_services(providers.drop_last(), item, destination) + applicable_in_services(
            providers.last(),
            providers.last().services,
            item,
            destination,
        )
    }
}

/// The sums computed while checking `item` against each rate class of the
/// providers fit in a `u32`.
pub open spec fn rate_checks_in_range(providers: Seq<ProviderInfoModel>, item: ShippingItem) -> bool {
    forall|i: int, j: int, k: int|
        0 <= i < providers.len() && 0 <= j < providers[i].services.len() && 0 <= k
            < providers[i].services[j].rates.len() ==> item.rate_check_in_range(
            #[trigger] providers[i].services[j].rates[k],
        )
}

/// One result per item that some service fits, in the order of the items.
pub open spec fn item_results(
    providers: Seq<ProviderInfoModel>,
    items: Seq<ShippingItem>,
    destination: Seq<char>,
) -> Seq<ItemResultModel>
    decreases items.len(),
{
    if items.len() == 0 {
        Seq::empty()
    } else {
        let earlier = item_results(providers, items.drop_last(), destination);
        let item = items.last();
        let found = applicable_services(providers, item, destination);
        if found.len() == 0 {
            earlier
        } else {
            earlier.push(
                ItemResultModel { item_identifier: item.identifier@, applicable_services: found },
            )
        }
    }
}

/// The cheapest service of a non-empty list; the first one among equals.
pub open spec fn cheapest(services: Seq<ApplicableServiceModel>) -> ApplicableServiceModel
    recommends
        services.len() > 0,
    decreases services.len(),
{
    if services.len() <= 1 {
        services[0]
    } else {
        let earlier = cheapest(services.drop_last());
        if services.last().rate.online_price < earlier.rate.online_price {
            services.last()
        } else {
            earlier
        }
    }
}

/// An item result cut down to its cheapest service.
pub open spec fn best_of(result: ItemResultModel) -> ItemResultModel {
    ItemResultModel {
        item_identifier: result.item_identifier,
        applicable_services: seq![cheapest(result.applicable_services)],
    }
}

/// Sum of the prices of the services, in cents.
pub open spec fn price_sum(services: Seq<ApplicableServiceModel>) -> int
    decreases services.len(),
{
    if services.len() == 0 {
        0
    } else {
        price_sum(services.drop_last()) + services.last().rate.online_price
    }
}

/// Sum of the prices of all services of all results, in cents.
pub open spec fn total_cost(results: Seq<ItemResultModel>) -> int
    decreases results.len(),
{
    if results.len() == 0 {
        0
    } else {
        total_cost(results.drop_last()) + price_sum(results.last().applicable_services)
    }
}

pub open spec fn results_view(res: Result<Vec<ShippingRateItemResult>, ShippingError>) -> Result<
    Seq<ItemResultModel>,
    ShippingError,
> {
    match res {
        Ok(v) => Ok(v.deep_view()),
        Err(e) => Err(e),
    }
}

impl ShippingDatabase {
    /// The providers that answer a query: those of the country of origin, after
    /// the query's choice of provider and of service level.
    pub open spec fn selected_providers(&self, query: &ShippingRateQuery) -> Result<
        Seq<ProviderInfoModel>,
        ShippingError,
    > {
        let source = query.source_region.country@;
        if !self@.contains_key(source) {
            Err(ShippingError::CountryNotFound)
        } else {
            match provider_choice(self@[source], query.provider) {
                None => Err(ShippingError::NoProvidersFound),
                Some(chosen) => match service_level_choice(chosen, query.service_level) {
                    None => Err(ShippingError::NoProvidersFound),
                    Some(kept) => Ok(kept),
                },
            }
        }
    }

    /// The sums computed while answering the query fit in a `u32`.
    pub open spec fn query_in_range(&self, query: &ShippingRateQuery) -> bool {
        match self.selected_providers(query) {
            Ok(providers) => forall|n: int|
                0 <= n < query.items.len() ==> rate_checks_in_range(
                    providers,
                    #[trigger] query.items@[n],
                ),
            Err(_) => true,
        }
    }

    /// The rates that fit the items of a query.
    pub open spec fn spec_rates(&self, query: &ShippingRateQuery) -> Result<
        Seq<ItemResultModel>,
        ShippingError,
    > {
        match self.selected_providers(query) {
            Ok(providers) => Ok(
                item_results(providers, query.items@, query.destination_region.country@),
            ),
            Err(e) => Err(e),
        }
    }

    /// The cheapest rate that fits each item of a query.
    pub open spec fn spec_best_rates(&self, query: &ShippingRateQuery) -> Result<
        Seq<ItemResultModel>,
        ShippingError,
    > {
        match self.spec_rates(query) {
            Ok(results) => Ok(results.map_values(|r: ItemResultModel| best_of(r))),
            Err(e) => Err(e),
        }
    }
}

/// One more element of a prefix adds it to the filtered prefix when it passes.
proof fn lemma_filter_take_step<A>(s: Seq<A>, i: int, pred: spec_fn(A) -> bool)
    requires
        0 <= i < s.len(),
    ensures
        s.take(i + 1).filter(pred) == (if pred(s[i]) {
            s.take(i).filter(pred).push(s[i])
        } else {
            s.take(i).filter(pred)
        }),
{
    reveal(Seq::filter);
    assert(s.take(i + 1).drop_last() =~= s.take(i));
}

proof fn lemma_filter_take_none<A>(s: Seq<A>, pred: spec_fn(A) -> bool)
    ensures
        s.take(0).filter(pred) == Seq::<A>::empty(),
{
    reveal(Seq::filter);
    assert(s.take(0) =~= Seq::<A>::empty());
}

fn clone_providers(providers: &Vec<ProviderInfo>) -> (res: Vec<ProviderInfo>)
    ensures
        res.deep_view() == providers.deep_view(),
{
    let res = providers.clone();
    assert(res.deep_view() =~= providers.deep_view());
    res
}

impl ShippingDatabase {
    fn get_country_services(&self, country_code: &String) -> (r: Option<&Vec<ProviderInfo>>)
        ensures
            r is Some <==> self@.contains_key(country_code@),
            r matches Some(v) ==> v.deep_view() == self@[country_code@],
    {
        let mut i: usize = 0;
        while i < self.countries.len()
            invariant
                i <= self.countries.len(),
                forall|j: int| 0 <= j < i ==> self.countries@[j].country@ != country_code@,
            decreases self.countries.len() - i,
        {
            if self.countries[i].country == *country_code {
                proof {
                    use_type_invariant(self);
                    lemma_entries_map(self.countries@, country_code@);
                    assert(self.countries@[i as int].country@ == country_code@);
                }
                return Some(&self.countries[i].providers);
            }
            i = i + 1;
        }
        proof {
            use_type_invariant(self);
            lemma_entries_map(self.countries@, country_code@);
        }
        None
    }

    fn filter_by_provider(&self, providers: &Vec<ProviderInfo>, provider: Option<Provider>) -> (r:
        Option<Vec<ProviderInfo>>)
        ensures
            r.deep_view() == provider_choice(providers.deep_view(), provider),
    {
        if let Some(provider) = provider {
            let ghost all = providers.deep_view();
            let mut filtered_providers: Vec<ProviderInfo> = Vec::new();
            proof {
                lemma_filter_take_none(all, offered_by(provider));
                assert(filtered_providers.deep_view() =~= Seq::<ProviderInfoModel>::empty());
            }
            let mut i: usize = 0;
            while i < providers.len()
                invariant
                    all == providers.deep_view(),
                    i <= providers.len(),
                    filtered_providers.deep_view() == all.take(i as int).filter(
                        offered_by(provider),
                    ),
                decreases providers.len() - i,
            {
                let ghost before = filtered_providers.deep_view();
                proof {
                    lemma_filter_take_step(all, i as int, offered_by(provider));
                }
                if providers[i].id == provider {
                    filtered_providers.push(providers[i].clone());
                    assert(filtered_providers.deep_view() =~= before.push(all[i as int]));
                } else {
                    assert(filtered_providers.deep_view() =~= before);
                }
                assert(all.take(i + 1).drop_last() =~= all.take(i as int));
                i = i + 1;
            }
            assert(all.take(providers.len() as int) =~= all);
            if filtered_providers.len() == 0 {
                return None;
            }
            return Some(filtered_providers);
        }
        Some(clone_providers(providers))
    }

    fn filter_provider_by_service_level(
        &self,
        providers: &Vec<ProviderInfo>,
        service_level: Option<ServiceLevel>,
    ) -> (r: Option<Vec<ProviderInfo>>)
        ensures
            r.deep_view() == service_level_choice(providers.deep_view(), service_level),
    {
        if let Some(service_level) = service_level {
            let ghost all = providers.deep_view().map_values(restrict_to_level(service_level));
            let mut filtered_providers: Vec<ProviderInfo> = Vec::new();
            proof {
                lemma_filter_take_none(all, has_services());
                assert(filtered_providers.deep_view() =~= Seq::<ProviderInfoModel>::empty());
            }
            let mut i: usize = 0;
            while i < providers.len()
                invariant
                    all == providers.deep_view().map_values(restrict_to_level(service_level)),
                    i <= providers.len(),
                    filtered_providers.deep_view() == all.take(i as int).filter(has_services()),
                decreases providers.len() - i,
            {
                let provider = &providers[i];
                let mut updated_provider = provider.clone();
                let ghost services = provider.services.deep_view();
                let mut updated_services: Vec<ServiceInfo> = Vec::new();
                proof {
                    lemma_filter_take_none(services, at_level(service_level));
                    assert(updated_services.deep_view() =~= Seq::<ServiceInfoModel>::empty());
                }
                let mut j: usize = 0;
                while j < provider.services.len()
                    invariant
                        services == provider.services.deep_view(),
                        j <= provider.services.len(),
                        updated_services.deep_view() == services.take(j as int).filter(
                            at_level(service_level),
                        ),
                    decreases provider.services.len() - j,
                {
                    let ghost before = updated_services.deep_view();
                    proof {
                        lemma_filter_take_step(services, j as int, at_level(service_level));
                    }
                    if provider.services[j].service == service_level {
                        updated_services.push(provider.services[j].clone());
                        assert(updated_services.deep_view() =~= before.push(services[j as int]));
                    } else {
                        assert(updated_services.deep_view() =~= before);
                    }
                    assert(services.take(j + 1).drop_last() =~= services.take(j as int));
                    j = j + 1;
                }
                assert(services.take(provider.services.len() as int) =~= services);
                let ghost before = filtered_providers.deep_view();
                proof {
                    lemma_filter_take_step(all, i as int, has_services());
                }
                if updated_services.len() != 0 {
                    updated_provider.services = updated_services;
                    assert(updated_provider@ == all[i as int]);
                    filtered_providers.push(updated_provider);
                    assert(filtered_providers.deep_view() =~= before.push(all[i as int]));
                } else {
                    assert(all[i as int].services.len() == 0);
                    assert(filtered_providers.deep_view() =~= before);
                }
                assert(all.take(i + 1).drop_last() =~= all.take(i as int));
                i = i + 1;
            }
            assert(all.take(providers.len() as int) =~= all);
            if filtered_providers.len() != 0 {
                Some(filtered_providers)
            } else {
                None
            }
        } else {
            Some(clone_providers(providers))
        }
    }

    fn match_rate_country(&self, rate: &Vec<Rate>, destination: &Region) -> (r: Option<Rate>)
        ensures
            r.deep_view() == rate_for_country(rate.deep_view(), destination.country@),
    {
        let ghost all = rate.deep_view();
        let ghost wanted = destination.country@;
        assert(all.skip(0) =~= all);
        let mut i: usize = 0;
        while i < rate.len()
            invariant
                all == rate.deep_view(),
                wanted == destination.country@,
                i <= rate.len(),
                rate_for_country(all, wanted) == rate_for_country(all.skip(i as int), wanted),
            decreases rate.len() - i,
        {
            let r = &rate[i];
            let ghost countries = r.countries.deep_view();
            assert(all.skip(i as int)[0] == all[i as int]);
            let mut j: usize = 0;
            while j < r.countries.len()
                invariant
                    countries == r.countries.deep_view(),
                    wanted == destination.country@,
                    all == rate.deep_view(),
                    i < rate.len(),
                    *r == rate@[i as int],
                    rate_for_country(all, wanted) == rate_for_country(all.skip(i as int), wanted),
                    j <= r.countries.len(),
                    forall|k: int| 0 <= k < j ==> countries[k] != wanted,
                decreases r.countries.len() - j,
            {
                if r.countries[j] == destination.country {
                    assert(countries.contains(wanted)) by {
                        assert(countries[j as int] == wanted);
                    }
                    let found = r.clone();
                    assert(all.skip(i as int)[0] == all[i as int]);
                    assert(all[i as int] == r@);
                    assert(all.skip(i as int)[0].countries.contains(wanted));
                    return Some(found);
                }
                j = j + 1;
            }
            assert(!countries.contains(wanted));
            assert(all.skip(i as int).drop_first() =~= all.skip(i + 1));
            i = i + 1;
        }
        None
    }
}

impl ShippingDatabase {
    fn match_services_with_shipping_item(
        &self,
        providers: &Vec<ProviderInfo>,
        item: &ShippingItem,
        destination: &Region,
    ) -> (r: Option<Vec<ApplicableService>>)
        requires
            rate_checks_in_range(providers.deep_view(), *item),
        ensures
            match r {
                Some(found) => found.deep_view() == applicable_services(
                    providers.deep_view(),
                    *item,
                    destination.country@,
                ) && found.len() > 0,
                None => applicable_services(
                    providers.deep_view(),
                    *item,
                    destination.country@,
                ).len() == 0,
            },
    {
        let ghost ps = providers.deep_view();
        let ghost dest = destination.country@;
        let mut applicable: Vec<ApplicableService> = Vec::new();
        assert(ps.take(0) =~= Seq::<ProviderInfoModel>::empty());
        assert(applicable.deep_view() =~= Seq::<ApplicableServiceModel>::empty());
        let mut i: usize = 0;
        while i < providers.len()
            invariant
                ps == providers.deep_view(),
                dest == destination.country@,
                rate_checks_in_range(ps, *item),
                i <= providers.len(),
                applicable.deep_view() == applicable_services(ps.take(i as int), *item, dest),
            decreases providers.len() - i,
        {
            let provider = &providers[i];
            let ghost p = ps[i as int];
            let ghost services = p.services;
            let ghost before_provider = applicable.deep_view();
            assert(services.take(0) =~= Seq::<ServiceInfoModel>::empty());
            assert(applicable.deep_view() =~= before_provider + applicable_in_services(
                p,
                services.take(0),
                *item,
                dest,
            ));
            let mut j: usize = 0;
            while j < provider.services.len()
                invariant
                    ps == providers.deep_view(),
                    dest == destination.country@,
                    rate_checks_in_range(ps, *item),
                    i < providers.len(),
                    *provider == providers@[i as int],
                    p == ps[i as int],
                    services == p.services,
                    j <= provider.services.len(),
                    applicable.deep_view() == before_provider + applicable_in_services(
                        p,
                        services.take(j as int),
                        *item,
                        dest,
                    ),
                decreases provider.services.len() - j,
            {
                let service = &provider.services[j];
                let ghost sv = services[j as int];
                let ghost rate_infos = sv.rates;
                let ghost before_service = applicable.deep_view();
                assert(rate_infos.take(0) =~= Seq::<RateInfoModel>::empty());
                assert(applicable.deep_view() =~= before_service + applicable_in_rates(
                    p,
                    sv,
                    rate_infos.take(0),
                    *item,
                    dest,
                ));
                let mut k: usize = 0;
                while k < service.rates.len()
                    invariant
                        ps == providers.deep_view(),
                        dest == destination.country@,
                        rate_checks_in_range(ps, *item),
                        i < providers.len(),
                        *provider == providers@[i as int],
                        p == ps[i as int],
                        services == p.services,
                        j < provider.services.len(),
                        *service == provider.services@[j as int],
                        sv == services[j as int],
                        rate_infos == sv.rates,
                        k <= service.rates.len(),
                        applicable.deep_view() == before_service + applicable_in_rates(
                            p,
                            sv,
                            rate_infos.take(k as int),
                            *item,
                            dest,
                        ),
                    decreases service.rates.len() - k,
                {
                    let rate_info = &service.rates[k];
                    let ghost before_rate = applicable.deep_view();
                    assert(rate_infos[k as int] == rate_info@);
                    assert(item.rate_check_in_range(ps[i as int].services[j as int].rates[k as int]));
                    assert(rate_infos.take(k + 1).drop_last() =~= rate_infos.take(k as int));
                    if item.is_rate_match(rate_info) {
                        let rate_country_match = self.match_rate_country(&rate_info.rate, destination);
                        if let Some(rate) = rate_country_match {
                            let found = ApplicableService {
                                provider: provider.clone(),
                                service: service.clone(),
                                rate_info: rate_info.clone(),
                                rate,
                            };
                            applicable.push(found);
                            assert(applicable.deep_view() =~= before_rate.push(found@));
                        }
                    }
                    assert(applicable.deep_view() =~= before_service + applicable_in_rates(
                        p,
                        sv,
                        rate_infos.take(k + 1),
                        *item,
                        dest,
                    ));
                    k = k + 1;
                }
                assert(rate_infos.take(service.rates.len() as int) =~= rate_infos);
                assert(services.take(j + 1).drop_last() =~= services.take(j as int));
                assert(applicable.deep_view() =~= before_provider + applicable_in_services(
                    p,
                    services.take(j + 1),
                    *item,
                    dest,
                ));
                j = j + 1;
            }
            assert(services.take(provider.services.len() as int) =~= services);
            assert(ps.take(i + 1).drop_last() =~= ps.take(i as int));
            assert(applicable.deep_view() =~= applicable_services(ps.take(i + 1), *item, dest));
            i = i + 1;
        }
        assert(ps.take(providers.len() as int) =~= ps);
        if applicable.len() == 0 {
            return None;
        }
        Some(applicable)
    }
}

/// Every result of `item_results` has at least one service.
pub(crate) proof fn lemma_item_results_nonempty(
    providers: Seq<ProviderInfoModel>,
    items: Seq<ShippingItem>,
    destination: Seq<char>,
)
    ensures
        forall|n: int|
            0 <= n < item_results(providers, items, destination).len() ==> (#[trigger] item_results(
                providers,
                items,
                destination,
            )[n]).applicable_services.len() > 0,
    decreases items.len(),
{
    if items.len() > 0 {
        let earlier = item_results(providers, items.drop_last(), destination);
        lemma_item_results_nonempty(providers, items.drop_last(), destination);
        let all = item_results(providers, items, destination);
        assert forall|n: int| 0 <= n < all.len() implies (#[trigger] all[n]).applicable_services.len()
            > 0 by {
            if n < earlier.len() {
                assert(all[n] == earlier[n]);
            }
        }
    }
}

impl ShippingDatabase {
    /// The rates that fit each item of the query, item by item; items that no
    /// rate fits are left out.
    pub fn get_rates(&self, query: &ShippingRateQuery) -> (res: Result<
        Vec<ShippingRateItemResult>,
        ShippingError,
    >)
        requires
            self.query_in_range(query),
        ensures
            results_view(res) == self.spec_rates(query),
    {
        let providers = match self.get_country_services(&query.source_region.country) {
            Some(p) => p,
            None => return Err(ShippingError::CountryNotFound),
        };
        let filtered_by_provider = self.filter_by_provider(providers, query.provider);
        let filtered_by_provider = match filtered_by_provider {
            Some(p) => p,
            None => return Err(ShippingError::NoProvidersFound),
        };
        let filtered_by_service_level = self.filter_provider_by_service_level(
            &filtered_by_provider,
            query.service_level,
        );
        let filtered = match filtered_by_service_level {
            Some(p) => p,
            None => return Err(ShippingError::NoProvidersFound),
        };
        let ghost ps = filtered.deep_view();
        let ghost items = query.items@;
        let ghost dest = query.destination_region.country@;
        assert(self.selected_providers(query) == Ok::<_, ShippingError>(ps));

        let mut results: Vec<ShippingRateItemResult> = Vec::new();
        assert(items.take(0) =~= Seq::<ShippingItem>::empty());
        assert(results.deep_view() =~= Seq::<ItemResultModel>::empty());
        let mut n: usize = 0;
        while n < query.items.len()
            invariant
                ps == filtered.deep_view(),
                items == query.items@,
                dest == query.destination_region.country@,
                forall|m: int| 0 <= m < items.len() ==> rate_checks_in_range(ps, #[trigger] items[m]),
                n <= query.items.len(),
                results.deep_view() == item_results(ps, items.take(n as int), dest),
            decreases query.items.len() - n,
        {
            let item = &query.items[n];
            let ghost before = results.deep_view();
            assert(items.take(n + 1).drop_last() =~= items.take(n as int));
            assert(items.take(n + 1).last() == *item);
            assert(rate_checks_in_range(ps, items[n as int]));
            let applicable_services = self.match_services_with_shipping_item(
                &filtered,
                item,
                &query.destination_region,
            );
            if let Some(applicable_services) = applicable_services {
                let item_result = ShippingRateItemResult {
                    item_identifier: item.identifier.clone(),
                    applicable_services,
                };
                results.push(item_result);
                assert(results.deep_view() =~= before.push(item_result@));
            }
            assert(results.deep_view() =~= item_results(ps, items.take(n + 1), dest));
            n = n + 1;
        }
        assert(items.take(query.items.len() as int) =~= items);
        Ok(results)
    }

    /// The cheapest rate that fits each item of the query (the first one
    /// among rates of equal price); items that no rate fits are left out.
    pub fn get_best_rates(&self, query: &ShippingRateQuery) -> (res: Result<
        Vec<ShippingRateItemResult>,
        ShippingError,
    >)
        requires
            self.query_in_range(query),
        ensures
            results_view(res) == self.spec_best_rates(query),
    {
        let results = match self.get_rates(query) {
            Ok(r) => r,
            Err(e) => return Err(e),
        };
        let ghost all = results.deep_view();
        proof {
            let providers = self.selected_providers(query)->Ok_0;
            lemma_item_results_nonempty(
                providers,
                query.items@,
                query.destination_region.country@,
            );
        }
        let mut best_results: Vec<ShippingRateItemResult> = Vec::new();
        let mut n: usize = 0;
        while n < results.len()
            invariant
                all == results.deep_view(),
                forall|m: int| 0 <= m < all.len() ==> (#[trigger] all[m]).applicable_services.len() > 0,
                n <= results.len(),
                best_results.deep_view() == all.take(n as int).map_values(
                    |r: ItemResultModel| best_of(r),
                ),
            decreases results.len() - n,
        {
            let result = &results[n];
            let ghost services = all[n as int].applicable_services;
            assert(result.applicable_services.deep_view() == services);
            let mut best: usize = 0;
            let mut k: usize = 1;
            assert(services.take(1).drop_last() =~= Seq::<ApplicableServiceModel>::empty());
            while k < result.applicable_services.len()
                invariant
                    services == result.applicable_services.deep_view(),
                    services.len() > 0,
                    1 <= k <= services.len(),
                    best < k,
                    services[best as int] == cheapest(services.take(k as int)),
                decreases result.applicable_services.len() - k,
            {
                assert(services.take(k + 1).drop_last() =~= services.take(k as int));
                if result.applicable_services[k].rate.online_price
                    < result.applicable_services[best].rate.online_price {
                    best = k;
                }
                k = k + 1;
            }
            assert(services.take(services.len() as int) =~= services);
            let mut cheapest_only: Vec<ApplicableService> = Vec::new();
            cheapest_only.push(result.applicable_services[best].clone());
            let best_result = ShippingRateItemResult {
                item_identifier: result.item_identifier.clone(),
                applicable_services: cheapest_only,
            };
            assert(best_result@.applicable_services =~= seq![cheapest(services)]);
            let ghost before = best_results.deep_view();
            best_results.push(best_result);
            assert(best_results.deep_view() =~= before.push(best_of(all[n as int])));
            assert(all.take(n + 1).map_values(|r: ItemResultModel| best_of(r)) =~= all.take(
                n as int,
            ).map_values(|r: ItemResultModel| best_of(r)).push(best_of(all[n as int])));
            n = n + 1;
        }
        assert(all.take(results.len() as int) =~= all);
        Ok(best_results)
    }
}

proof fn lemma_total_bound(n: int, total: int, price: int)
    requires
        0 <= n < 0x1_0000_0000_0000_0000,
        0 <= total <= n * 0xffff_ffff_ffff_ffff,
        0 <= price <= 0xffff_ffff_ffff_ffff,
    ensures
        total + price <= (n + 1) * 0xffff_ffff_ffff_ffff,
        (n + 1) * 0xffff_ffff_ffff_ffff <= u128::MAX,
{
    assert((n + 1) * 0xffff_ffff_ffff_ffff <= 0x1_0000_0000_0000_0000 * 0xffff_ffff_ffff_ffff)
        by (nonlinear_arith)
        requires
            0 <= n + 1 <= 0x1_0000_0000_0000_0000,
    ;
    assert(n * 0xffff_ffff_ffff_ffff + 0xffff_ffff_ffff_ffff == (n + 1) * 0xffff_ffff_ffff_ffff)
        by (nonlinear_arith);
}

impl ShippingDatabase {
    /// The total price, in cents, of the cheapest rate of each item of the
    /// query that some rate fits.
    pub fn get_total_shipping_cost(&self, query: &ShippingRateQuery) -> (res: Result<
        u128,
        ShippingError,
    >)
        requires
            self.query_in_range(query),
        ensures
            match res {
                Ok(total) => self.spec_best_rates(query) matches Ok(best) && total == total_cost(
                    best,
                ),
                Err(e) => self.spec_best_rates(query) == Err::<Seq<ItemResultModel>, _>(e),
            },
    {
        let best_rates = match self.get_best_rates(query) {
            Ok(b) => b,
            Err(e) => return Err(e),
        };
        let ghost all = best_rates.deep_view();
        assert(forall|m: int| 0 <= m < all.len() ==> (#[trigger] all[m]).applicable_services.len() == 1);
        let mut total_cost_cents: u128 = 0;
        let mut n: usize = 0;
        while n < best_rates.len()
            invariant
                all == best_rates.deep_view(),
                forall|m: int| 0 <= m < all.len() ==> (#[trigger] all[m]).applicable_services.len() == 1,
                n <= best_rates.len(),
                total_cost_cents == total_cost(all.take(n as int)),
                total_cost_cents <= n * 0xffff_ffff_ffff_ffff,
            decreases best_rates.len() - n,
        {
            let result = &best_rates[n];
            let ghost services = all[n as int].applicable_services;
            assert(result.applicable_services.deep_view() == services);
            assert(services.len() == 1);
            let ghost start = total_cost_cents;
            let mut k: usize = 0;
            assert(services.take(0) =~= Seq::<ApplicableServiceModel>::empty());
            while k < result.applicable_services.len()
                invariant
                    services == result.applicable_services.deep_view(),
                    services.len() == 1,
                    n < best_rates.len(),
                    n <= usize::MAX,
                    start <= n * 0xffff_ffff_ffff_ffff,
                    k <= 1,
                    total_cost_cents == start + price_sum(services.take(k as int)),
                    k == 0 ==> total_cost_cents == start,
                decreases result.applicable_services.len() - k,
            {
                let price = result.applicable_services[k].rate.online_price;
                proof {
                    lemma_total_bound(n as int, start as int, price as int);
                    assert(services.take(k + 1).drop_last() =~= services.take(k as int));
                }
                total_cost_cents = total_cost_cents + price as u128;
                k = k + 1;
            }
            proof {
                assert(services.take(1) =~= services);
                assert(services.drop_last() =~= Seq::<ApplicableServiceModel>::empty());
                assert(price_sum(services.drop_last()) == 0);
                assert(price_sum(services) == services[0].rate.online_price);
                lemma_total_bound(n as int, start as int, services[0].rate.online_price as int);
                assert(all.take(n + 1).drop_last() =~= all.take(n as int));
            }
            n = n + 1;
        }
        assert(all.take(best_rates.len() as int) =~= all);
        Ok(total_cost_cents)
    }
}

impl ShippingDatabase {
    /// Whether the sums computed while answering the query fit in a `u32`, as
    /// `get_rates`, `get_best_rates` and `get_total_shipping_cost` require.
    pub fn query_sums_fit(&self, query: &ShippingRateQuery) -> (r: bool)
        ensures
            r == self.query_in_range(query),
    {
        let providers = match self.get_country_services(&query.source_region.country) {
            Some(p) => p,
            None => return true,
        };
        let chosen = match self.filter_by_provider(providers, query.provider) {
            Some(p) => p,
            None => return true,
        };
        let kept = match self.filter_provider_by_service_level(&chosen, query.service_level) {
            Some(p) => p,
            None => return true,
        };
        let ghost ps = kept.deep_view();
        assert(self.selected_providers(query) == Ok::<_, ShippingError>(ps));
        let mut n: usize = 0;
        while n < query.items.len()
            invariant
                ps == kept.deep_view(),
                self.selected_providers(query) == Ok::<_, ShippingError>(ps),
                n <= query.items.len(),
                forall|m: int| 0 <= m < n ==> rate_checks_in_range(ps, #[trigger] query.items@[m]),
            decreases query.items.len() - n,
        {
            let item = &query.items[n];
            let mut i: usize = 0;
            while i < kept.len()
                invariant
                    ps == kept.deep_view(),
                    n < query.items.len(),
                    *item == query.items@[n as int],
                    self.selected_providers(query) == Ok::<_, ShippingError>(ps),
                    i <= kept.len(),
                    forall|a: int, b: int, c: int|
                        0 <= a < i && 0 <= b < ps[a].services.len() && 0 <= c
                            < ps[a].services[b].rates.len() ==> item.rate_check_in_range(
                            #[trigger] ps[a].services[b].rates[c],
                        ),
                decreases kept.len() - i,
            {
                let provider = &kept[i];
                let mut j: usize = 0;
                while j < provider.services.len()
                    invariant
                        ps == kept.deep_view(),
                        n < query.items.len(),
                        *item == query.items@[n as int],
                        self.selected_providers(query) == Ok::<_, ShippingError>(ps),
                        i < kept.len(),
                        *provider == kept@[i as int],
                        j <= provider.services.len(),
                        forall|a: int, b: int, c: int|
                            0 <= a < i && 0 <= b < ps[a].services.len() && 0 <= c
                                < ps[a].services[b].rates.len() ==> item.rate_check_in_range(
                                #[trigger] ps[a].services[b].rates[c],
                            ),
                        forall|b: int, c: int|
                            0 <= b < j && 0 <= c < ps[i as int].services[b].rates.len()
                                ==> item.rate_check_in_range(
                                #[trigger] ps[i as int].services[b].rates[c],
                            ),
                    decreases provider.services.len() - j,
                {
                    let service = &provider.services[j];
                    let mut k: usize = 0;
                    while k < service.rates.len()
                        invariant
                            ps == kept.deep_view(),
                            n < query.items.len(),
                            *item == query.items@[n as int],
                            self.selected_providers(query) == Ok::<_, ShippingError>(ps),
                            i < kept.len(),
                            *provider == kept@[i as int],
                            j < provider.services.len(),
                            *service == provider.services@[j as int],
                            k <= service.rates.len(),
                            forall|a: int, b: int, c: int|
                                0 <= a < i && 0 <= b < ps[a].services.len() && 0 <= c
                                    < ps[a].services[b].rates.len() ==> item.rate_check_in_range(
                                    #[trigger] ps[a].services[b].rates[c],
                                ),
                            forall|b: int, c: int|
                                0 <= b < j && 0 <= c < ps[i as int].services[b].rates.len()
                                    ==> item.rate_check_in_range(
                                    #[trigger] ps[i as int].services[b].rates[c],
                                ),
                            forall|c: int|
                                0 <= c < k ==> item.rate_check_in_range(
                                    #[trigger] ps[i as int].services[j as int].rates[c],
                                ),
                        decreases service.rates.len() - k,
                    {
                        assert(ps[i as int].services[j as int].rates[k as int]
                            == service.rates@[k as int]@);
                        if !item.sums_fit_rate(&service.rates[k]) {
                            assert(!rate_checks_in_range(ps, query.items@[n as int]));
                            return false;
                        }
                        k = k + 1;
                    }
                    j = j + 1;
                }
                i = i + 1;
            }
            n = n + 1;
        }
        true
    }
}

// ---------------------------------------------------------------------------
// Copies
// ---------------------------------------------------------------------------

impl Clone for ShippingRateQuery {
    fn clone(&self) -> (res: Self)
        ensures
            res.source_region@ == self.source_region@,
            res.destination_region@ == self.destination_region@,
            res.items@ == self.items@,
            res.provider == self.provider,
            res.service_level == self.service_level,
    {
        let items = self.items.clone();
        assert(items@ =~= self.items@);
        ShippingRateQuery {
            source_region: self.source_region.clone(),
            destination_region: self.destination_region.clone(),
            items,
            provider: self.provider,
            service_level: self.service_level,
        }
    }
}

impl Clone for ShippingRateItemResult {
    fn clone(&self) -> (res: Self)
        ensures
            res@ == self@,
    {
        let applicable_services = self.applicable_services.clone();
        assert(applicable_services.deep_view() =~= self.applicable_services.deep_view());
        ShippingRateItemResult {
            item_identifier: self.item_identifier.clone(),
            applicable_services,
        }
    }
}

impl Clone for ShippingRateQueryResult {
    fn clone(&self) -> (res: Self)
        ensures
            res.items.deep_view() == self.items.deep_view(),
            res.total_cost == self.total_cost,
    {
        let items = self.items.clone();
        assert(items.deep_view() =~= self.items.deep_view());
        ShippingRateQueryResult { items, total_cost: self.total_cost }
    }
}

impl Clone for ShippingDatabase {
    fn clone(&self) -> (res: Self)
        ensures
            res@ == self@,
    {
        proof {
            use_type_invariant(self);
        }
        let mut countries: Vec<CountryServices> = Vec::new();
        let mut i: usize = 0;
        while i < self.countries.len()
            invariant
                i <= self.countries.len(),
                countries@.len() == i,
                forall|j: int|
                    0 <= j < i ==> countries@[j].country == self.countries@[j].country
                        && countries@[j].providers.deep_view()
                        == self.countries@[j].providers.deep_view(),
            decreases self.countries.len() - i,
        {
            let entry = &self.countries[i];
            countries.push(
                CountryServices {
                    country: entry.country.clone(),
                    providers: clone_providers(&entry.providers),
                },
            );
            i = i + 1;
        }
        proof {
            lemma_entries_map_same(countries@, self.countries@);
        }
        ShippingDatabase { countries }
    }
}

/// Two lists of entries with the same countries and providers stand for the same table.
proof fn lemma_entries_map_same(a: Seq<CountryServices>, b: Seq<CountryServices>)
    requires
        a.len() == b.len(),
        forall|i: int|
            0 <= i < a.len() ==> a[i].country == b[i].country && a[i].providers.deep_view()
                == b[i].providers.deep_view(),
    ensures
        entries_map(a) == entries_map(b),
        distinct_countries(b) ==> distinct_countries(a),
    decreases a.len(),
{
    if a.len() > 0 {
        lemma_entries_map_same(a.drop_last(), b.drop_last());
        assert(a.last().country == b.last().country);
    }
}

} // verus!
