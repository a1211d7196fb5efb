//! Laws of the rate queries: what every answer satisfies.
use vstd::prelude::*;

use crate::item::ShippingItem;
use crate::provider::{
    ApplicableServiceModel, ItemResultModel, ShippingDatabase, ShippingError, ShippingRateQuery,
    applicable_in_rates, applicable_in_services, applicable_services, at_level, best_of, cheapest,
    has_services, item_results, lemma_item_results_nonempty, offered_by, price_sum,
    provider_choice, rate_for_country, restrict_to_level, restricted_to_level, total_cost,
};
use crate::types::{ProviderInfoModel, RateInfoModel, RateModel, ServiceInfoModel};

verus! {

/// The cheapest service of a non-empty list is one of its services, no other
/// service is cheaper, and every service before it costs more.
pub proof fn lemma_cheapest_is_first_lowest(services: Seq<ApplicableServiceModel>)
    requires
        services.len() > 0,
    ensures
        exists|i: int|
            0 <= i < services.len() && services[i] == cheapest(services) && forall|j: int|
                0 <= j < i ==> services[j].rate.online_price > cheapest(
                    services,
                ).rate.online_price,
        forall|j: int|
            0 <= j < services.len() ==> cheapest(services).rate.online_price
                <= #[trigger] services[j].rate.online_price,
    decreases services.len(),
{
    if services.len() > 1 {
        let earlier = services.drop_last();
        lemma_cheapest_is_first_lowest(earlier);
        let i = choose|i: int|
            0 <= i < earlier.len() && earlier[i] == cheapest(earlier) && forall|j: int|
                0 <= j < i ==> earlier[j].rate.online_price > cheapest(earlier).rate.online_price;
        assert forall|j: int|
            0 <= j < services.len() implies cheapest(services).rate.online_price
            <= #[trigger] services[j].rate.online_price by {
            if j < earlier.len() {
                assert(earlier[j] == services[j]);
            }
        }
        if services.last().rate.online_price < cheapest(earlier).rate.online_price {
            let last = services.len() - 1;
            assert forall|j: int| 0 <= j < last implies services[j].rate.online_price > cheapest(
                services,
            ).rate.online_price by {
                assert(earlier[j] == services[j]);
            }
        } else {
            assert(services[i] == earlier[i]);
            assert forall|j: int| 0 <= j < i implies services[j].rate.online_price > cheapest(
                services,
            ).rate.online_price by {
                assert(earlier[j] == services[j]);
            }
        }
    }
}

/// The best rates answer a query exactly when the rates do, with the same
/// items in the same order; for each item the best rate is one of its
/// rates, no rate of the item is cheaper, and every rate listed before it
/// is dearer.
pub proof fn lemma_best_rates_are_cheapest(db: &ShippingDatabase, query: &ShippingRateQuery)
    ensures
        match (db.spec_rates(query), db.spec_best_rates(query)) {
            (Ok(all), Ok(best)) => {
                &&& best.len() == all.len()
                &&& forall|n: int|
                    #![trigger best[n]]
                    0 <= n < best.len() ==> {
                        let chosen = best[n].applicable_services[0];
                        let offered = all[n].applicable_services;
                        &&& best[n].item_identifier == all[n].item_identifier
                        &&& best[n].applicable_services.len() == 1
                        &&& exists|i: int|
                            0 <= i < offered.len() && offered[i] == chosen && forall|j: int|
                                0 <= j < i ==> offered[j].rate.online_price
                                    > chosen.rate.online_price
                        &&& forall|j: int|
                            0 <= j < offered.len() ==> chosen.rate.online_price
                                <= #[trigger] offered[j].rate.online_price
                    }
            },
            (Err(e), Err(f)) => e == f,
            _ => false,
        },
{
    if let Ok(providers) = db.selected_providers(query) {
        let all = db.spec_rates(query)->Ok_0;
        let best = db.spec_best_rates(query)->Ok_0;
        lemma_item_results_nonempty(
            providers,
            query.items@,
            query.destination_region.country@,
        );
        assert forall|n: int| #![trigger best[n]] 0 <= n < best.len() implies {
            let chosen = best[n].applicable_services[0];
            let offered = all[n].applicable_services;
            &&& best[n].item_identifier == all[n].item_identifier
            &&& best[n].applicable_services.len() == 1
            &&& exists|i: int|
                0 <= i < offered.len() && offered[i] == chosen && forall|j: int|
                    0 <= j < i ==> offered[j].rate.online_price > chosen.rate.online_price
            &&& forall|j: int|
                0 <= j < offered.len() ==> chosen.rate.online_price
                    <= #[trigger] offered[j].rate.online_price
        } by {
            assert(best[n] == best_of(all[n]));
            lemma_cheapest_is_first_lowest(all[n].applicable_services);
        }
    }
}

/// A filter keeps only elements that pass it, and only elements of the list.
proof fn lemma_filter_keeps<A>(s: Seq<A>, pred: spec_fn(A) -> bool)
    ensures
        forall|i: int|
            0 <= i < s.filter(pred).len() ==> pred(#[trigger] s.filter(pred)[i]) && s.contains(
                s.filter(pred)[i],
            ),
    decreases s.len(),
{
    reveal(Seq::filter);
    if s.len() > 0 {
        let earlier = s.drop_last();
        lemma_filter_keeps(earlier, pred);
        let out = s.filter(pred);
        assert forall|i: int| 0 <= i < out.len() implies pred(#[trigger] out[i]) && s.contains(
            out[i],
        ) by {
            if i < earlier.filter(pred).len() {
                assert(out[i] == earlier.filter(pred)[i]);
                let j = choose|j: int| 0 <= j < earlier.len() && earlier[j] == out[i];
                assert(s[j] == out[i]);
            } else {
                assert(out[i] == s.last());
                assert(s[s.len() - 1] == out[i]);
            }
        }
    }
}

/// The rate found for a country is one of the rates, and covers the country.
pub proof fn lemma_rate_for_country_covers(rates: Seq<RateModel>, country: Seq<char>)
    ensures
        rate_for_country(rates, country) matches Some(r) ==> rates.contains(r)
            && r.countries.contains(country),
        rate_for_country(rates, country) is None ==> forall|i: int|
            0 <= i < rates.len() ==> !(#[trigger] rates[i].countries.contains(country)),
    decreases rates.len(),
{
    if rates.len() > 0 {
        lemma_rate_for_country_covers(rates.drop_first(), country);
        if let Some(r) = rate_for_country(rates, country) {
            if !rates[0].countries.contains(country) {
                let j = choose|j: int|
                    0 <= j < rates.drop_first().len() && rates.drop_first()[j] == r;
                assert(rates[j + 1] == r);
            } else {
                assert(rates[0] == r);
            }
        } else {
            assert forall|i: int| 0 <= i < rates.len() implies !(
            #[trigger] rates[i].countries.contains(country)) by {
                if i > 0 {
                    assert(rates[i] == rates.drop_first()[i - 1]);
                }
            }
        }
    }
}

/// What every service found for an item among some providers satisfies.
pub open spec fn found_among(
    a: ApplicableServiceModel,
    providers: Seq<ProviderInfoModel>,
    item: ShippingItem,
    destination: Seq<char>,
) -> bool {
    &&& providers.contains(a.provider)
    &&& a.provider.services.contains(a.service)
    &&& a.service.rates.contains(a.rate_info)
    &&& item.matches_rate(a.rate_info)
    &&& rate_for_country(a.rate_info.rate, destination) == Some(a.rate)
}

proof fn lemma_applicable_in_rates_sound(
    provider: ProviderInfoModel,
    service: ServiceInfoModel,
    rate_infos: Seq<RateInfoModel>,
    item: ShippingItem,
    destination: Seq<char>,
)
    ensures
        forall|k: int|
            0 <= k < applicable_in_rates(provider, service, rate_infos, item, destination).len()
                ==> {
                let a = #[trigger] applicable_in_rates(
                    provider,
                    service,
                    rate_infos,
                    item,
                    destination,
                )[k];
                &&& a.provider == provider
                &&& a.service == service
                &&& rate_infos.contains(a.rate_info)
                &&& item.matches_rate(a.rate_info)
                &&& rate_for_country(a.rate_info.rate, destination) == Some(a.rate)
            },
    decreases rate_infos.len(),
{
    if rate_infos.len() > 0 {
        let earlier = rate_infos.drop_last();
        lemma_applicable_in_rates_sound(provider, service, earlier, item, destination);
        let found = applicable_in_rates(provider, service, rate_infos, item, destination);
        let found_earlier = applicable_in_rates(provider, service, earlier, item, destination);
        assert forall|k: int| 0 <= k < found.len() implies {
            let a = #[trigger] found[k];
            &&& a.provider == provider
            &&& a.service == service
            &&& rate_infos.contains(a.rate_info)
            &&& item.matches_rate(a.rate_info)
            &&& rate_for_country(a.rate_info.rate, destination) == Some(a.rate)
        } by {
            if k < found_earlier.len() {
                assert(found[k] == found_earlier[k]);
                let j = choose|j: int| 0 <= j < earlier.len() && earlier[j] == found[k].rate_info;
                assert(rate_infos[j] == earlier[j]);
            } else {
                assert(rate_infos[rate_infos.len() - 1] == found[k].rate_info);
            }
        }
    }
}

proof fn lemma_applicable_in_services_sound(
    provider: ProviderInfoModel,
    services: Seq<ServiceInfoModel>,
    item: ShippingItem,
    destination: Seq<char>,
)
    ensures
        forall|k: int|
            0 <= k < applicable_in_services(provider, services, item, destination).len() ==> {
                let a = #[trigger] applicable_in_services(provider, services, item, destination)[k];
                &&& a.provider == provider
                &&& services.contains(a.service)
                &&& a.service.rates.contains(a.rate_info)
                &&& item.matches_rate(a.rate_info)
                &&& rate_for_country(a.rate_info.rate, destination) == Some(a.rate)
            },
    decreases services.len(),
{
    if services.len() > 0 {
        let earlier = services.drop_last();
        let last = services.last();
        lemma_applicable_in_services_sound(provider, earlier, item, destination);
        lemma_applicable_in_rates_sound(provider, last, last.rates, item, destination);
        let left = applicable_in_services(provider, earlier, item, destination);
        let right = applicable_in_rates(provider, last, last.rates, item, destination);
        let found = applicable_in_services(provider, services, item, destination);
        assert(found == left + right);
        assert forall|k: int| 0 <= k < found.len() implies {
            let a = #[trigger] found[k];
            &&& a.provider == provider
            &&& services.contains(a.service)
            &&& a.service.rates.contains(a.rate_info)
            &&& item.matches_rate(a.rate_info)
            &&& rate_for_country(a.rate_info.rate, destination) == Some(a.rate)
        } by {
            if k < left.len() {
                assert(found[k] == left[k]);
                let j = choose|j: int| 0 <= j < earlier.len() && earlier[j] == found[k].service;
                assert(services[j] == earlier[j]);
            } else {
                assert(found[k] == right[k - left.len()]);
                assert(services[services.len() - 1] == found[k].service);
            }
        }
    }
}

proof fn lemma_applicable_services_sound(
    providers: Seq<ProviderInfoModel>,
    item: ShippingItem,
    destination: Seq<char>,
)
    ensures
        forall|k: int|
            0 <= k < applicable_services(providers, item, destination).len() ==> found_among(
                #[trigger] applicable_services(providers, item, destination)[k],
                providers,
                item,
                destination,
            ),
    decreases providers.len(),
{
    if providers.len() > 0 {
        let earlier = providers.drop_last();
        let last = providers.last();
        lemma_applicable_services_sound(earlier, item, destination);
        lemma_applicable_in_services_sound(last, last.services, item, destination);
        let left = applicable_services(earlier, item, destination);
        let right = applicable_in_services(last, last.services, item, destination);
        let found = applicable_services(providers, item, destination);
        assert(found == left + right);
        assert forall|k: int| 0 <= k < found.len() implies found_among(
            #[trigger] found[k],
            providers,
            item,
            destination,
        ) by {
            if k < left.len() {
                assert(found[k] == left[k]);
                let j = choose|j: int| 0 <= j < earlier.len() && earlier[j] == found[k].provider;
                assert(providers[j] == earlier[j]);
            } else {
                assert(found[k] == right[k - left.len()]);
                assert(providers[providers.len() - 1] == found[k].provider);
            }
        }
    }
}

/// Each result of `item_results` belongs to one of the items, and lists
/// exactly the services found for that item.
proof fn lemma_item_results_from_items(
    providers: Seq<ProviderInfoModel>,
    items: Seq<ShippingItem>,
    destination: Seq<char>,
)
    ensures
        forall|n: int|
            0 <= n < item_results(providers, items, destination).len() ==> exists|m: int|
                0 <= m < items.len() && (#[trigger] item_results(providers, items, destination)[n]).item_identifier
                    == items[m].identifier@ && item_results(
                    providers,
                    items,
                    destination,
                )[n].applicable_services == applicable_services(providers, items[m], destination),
        item_results(providers, items, destination).len() <= items.len(),
    decreases items.len(),
{
    if items.len() > 0 {
        let earlier = items.drop_last();
        lemma_item_results_from_items(providers, earlier, destination);
        let out = item_results(providers, items, destination);
        let out_earlier = item_results(providers, earlier, destination);
        assert forall|n: int| 0 <= n < out.len() implies exists|m: int|
            0 <= m < items.len() && (#[trigger] out[n]).item_identifier == items[m].identifier@
                && out[n].applicable_services == applicable_services(
                providers,
                items[m],
                destination,
            ) by {
            if n < out_earlier.len() {
                assert(out[n] == out_earlier[n]);
                let m = choose|m: int|
                    0 <= m < earlier.len() && out_earlier[n].item_identifier
                        == earlier[m].identifier@ && out_earlier[n].applicable_services
                        == applicable_services(providers, earlier[m], destination);
                assert(items[m] == earlier[m]);
            } else {
                assert(items[items.len() - 1] == items.last());
            }
        }
    }
}

/// The providers selected for a query are the named provider, if one is
/// named, and offer only services at the named level, if one is named.
proof fn lemma_selected_providers_follow_query(db: &ShippingDatabase, query: &ShippingRateQuery)
    ensures
        db.selected_providers(query) matches Ok(ps) ==> forall|i: int|
            0 <= i < ps.len() ==> {
                &&& query.provider matches Some(p) ==> (#[trigger] ps[i]).id == p
                &&& query.service_level matches Some(l) ==> forall|j: int|
                    0 <= j < ps[i].services.len() ==> (#[trigger] ps[i].services[j]).service == l
            },
{
    let source = query.source_region.country@;
    if db.selected_providers(query) is Ok {
        let chosen = provider_choice(db@[source], query.provider)->0;
        let ps = db.selected_providers(query)->Ok_0;
        assert forall|i: int| 0 <= i < chosen.len() implies (query.provider matches Some(p) ==> (
        #[trigger] chosen[i]).id == p) by {
            if let Some(p) = query.provider {
                lemma_filter_keeps(db@[source], offered_by(p));
            }
        }
        if let Some(l) = query.service_level {
            let mapped = chosen.map_values(restrict_to_level(l));
            lemma_filter_keeps(mapped, has_services());
            assert forall|i: int| 0 <= i < ps.len() implies {
                &&& query.provider matches Some(p) ==> (#[trigger] ps[i]).id == p
                &&& forall|j: int|
                    0 <= j < ps[i].services.len() ==> (#[trigger] ps[i].services[j]).service == l
            } by {
                assert(ps[i] == mapped.filter(has_services())[i]);
                let k = choose|k: int| 0 <= k < mapped.len() && mapped[k] == ps[i];
                assert(mapped[k] == restricted_to_level(chosen[k], l));
                lemma_filter_keeps(chosen[k].services, at_level(l));
                assert forall|j: int| 0 <= j < ps[i].services.len() implies (
                #[trigger] ps[i].services[j]).service == l by {
                    assert(ps[i].services[j] == chosen[k].services.filter(at_level(l))[j]);
                }
            }
        }
    }
}

/// Every rate reported for a query fits the query: it belongs to one of the
/// query's items (and the result lists exactly the services found for that
/// item), that item meets every limit of its rate class, the price is the first
/// of the class's prices that covers the destination country, and the provider
/// and service level are those that the query names, if it names them; with a
/// level named, every service the reported provider lists is at that level.
pub proof fn lemma_rates_fit_query(db: &ShippingDatabase, query: &ShippingRateQuery)
    ensures
        db.spec_rates(query) matches Ok(results) ==> forall|n: int, k: int|
            0 <= n < results.len() && 0 <= k < results[n].applicable_services.len() ==> {
                let a = #[trigger] results[n].applicable_services[k];
                let destination = query.destination_region.country@;
                &&& exists|m: int|
                    0 <= m < query.items.len() && query.items@[m].identifier@
                        == results[n].item_identifier && query.items@[m].matches_rate(
                        a.rate_info,
                    ) && results[n].applicable_services == applicable_services(
                        db.selected_providers(query)->Ok_0,
                        query.items@[m],
                        destination,
                    )
                &&& a.provider.services.contains(a.service)
                &&& a.service.rates.contains(a.rate_info)
                &&& rate_for_country(a.rate_info.rate, destination) == Some(a.rate)
                &&& a.rate_info.rate.contains(a.rate)
                &&& a.rate.countries.contains(destination)
                &&& query.provider matches Some(p) ==> a.provider.id == p
                &&& query.service_level matches Some(l) ==> a.service.service == l
                    && forall|j: int|
                    0 <= j < a.provider.services.len() ==> (#[trigger] a.provider.services[j]).service
                        == l
            },
{
    if let Ok(ps) = db.selected_providers(query) {
        let items = query.items@;
        let destination = query.destination_region.country@;
        let results = item_results(ps, items, destination);
        lemma_item_results_from_items(ps, items, destination);
        lemma_selected_providers_follow_query(db, query);
        assert forall|n: int, k: int|
            0 <= n < results.len() && 0 <= k < results[n].applicable_services.len() implies {
            let a = #[trigger] results[n].applicable_services[k];
            &&& exists|m: int|
                0 <= m < query.items.len() && query.items@[m].identifier@
                    == results[n].item_identifier && query.items@[m].matches_rate(a.rate_info)
                    && results[n].applicable_services == applicable_services(
                    ps,
                    query.items@[m],
                    destination,
                )
            &&& a.provider.services.contains(a.service)
            &&& a.service.rates.contains(a.rate_info)
            &&& rate_for_country(a.rate_info.rate, destination) == Some(a.rate)
            &&& a.rate_info.rate.contains(a.rate)
            &&& a.rate.countries.contains(destination)
            &&& query.provider matches Some(p) ==> a.provider.id == p
            &&& query.service_level matches Some(l) ==> a.service.service == l && forall|j: int|
                0 <= j < a.provider.services.len() ==> (#[trigger] a.provider.services[j]).service
                    == l
        } by {
            let m = choose|m: int|
                0 <= m < items.len() && results[n].item_identifier == items[m].identifier@
                    && results[n].applicable_services == applicable_services(
                    ps,
                    items[m],
                    destination,
                );
            lemma_applicable_services_sound(ps, items[m], destination);
            let a = results[n].applicable_services[k];
            assert(found_among(applicable_services(ps, items[m], destination)[k], ps, items[m], destination));
            lemma_rate_for_country_covers(a.rate_info.rate, destination);
            let i = choose|i: int| 0 <= i < ps.len() && ps[i] == a.provider;
            assert(query.provider matches Some(p) ==> ps[i].id == p);
            if let Some(l) = query.service_level {
                let j = choose|j: int| 0 <= j < a.provider.services.len() && a.provider.services[j] == a.service;
                assert(ps[i].services[j].service == l);
            }
        }
    }
}

/// The service found for an item at a rate class, if the class fits the item
/// and covers the destination.
pub open spec fn offer(
    provider: ProviderInfoModel,
    service: ServiceInfoModel,
    rate_info: RateInfoModel,
    destination: Seq<char>,
) -> ApplicableServiceModel {
    ApplicableServiceModel {
        provider,
        service,
        rate_info,
        rate: rate_for_country(rate_info.rate, destination)->0,
    }
}

/// A rate class fits an item for a destination.
pub open spec fn fits(item: ShippingItem, rate_info: RateInfoModel, destination: Seq<char>) -> bool {
    item.matches_rate(rate_info) && rate_for_country(rate_info.rate, destination) is Some
}

proof fn lemma_applicable_in_rates_complete(
    provider: ProviderInfoModel,
    service: ServiceInfoModel,
    rate_infos: Seq<RateInfoModel>,
    item: ShippingItem,
    destination: Seq<char>,
)
    ensures
        forall|k: int|
            0 <= k < rate_infos.len() && fits(item, #[trigger] rate_infos[k], destination)
                ==> applicable_in_rates(provider, service, rate_infos, item, destination).contains(
                offer(provider, service, rate_infos[k], destination),
            ),
    decreases rate_infos.len(),
{
    if rate_infos.len() > 0 {
        let earlier = rate_infos.drop_last();
        lemma_applicable_in_rates_complete(provider, service, earlier, item, destination);
        let found = applicable_in_rates(provider, service, rate_infos, item, destination);
        let found_earlier = applicable_in_rates(provider, service, earlier, item, destination);
        assert forall|k: int|
            0 <= k < rate_infos.len() && fits(item, #[trigger] rate_infos[k], destination) implies found.contains(
            offer(provider, service, rate_infos[k], destination),
        ) by {
            if k < earlier.len() {
                assert(earlier[k] == rate_infos[k]);
                let x = offer(provider, service, rate_infos[k], destination);
                let j = choose|j: int| 0 <= j < found_earlier.len() && found_earlier[j] == x;
                assert(found[j] == x);
            } else {
                assert(found[found.len() - 1] == offer(
                    provider,
                    service,
                    rate_infos[k],
                    destination,
                ));
            }
        }
    }
}

proof fn lemma_applicable_in_services_complete(
    provider: ProviderInfoModel,
    services: Seq<ServiceInfoModel>,
    item: ShippingItem,
    destination: Seq<char>,
)
    ensures
        forall|j: int, k: int|
            0 <= j < services.len() && 0 <= k < services[j].rates.len() && fits(
                item,
                #[trigger] services[j].rates[k],
                destination,
            ) ==> applicable_in_services(provider, services, item, destination).contains(
                offer(provider, services[j], services[j].rates[k], destination),
            ),
    decreases services.len(),
{
    if services.len() > 0 {
        let earlier = services.drop_last();
        let last = services.last();
        lemma_applicable_in_services_complete(provider, earlier, item, destination);
        lemma_applicable_in_rates_complete(provider, last, last.rates, item, destination);
        let left = applicable_in_services(provider, earlier, item, destination);
        let right = applicable_in_rates(provider, last, last.rates, item, destination);
        let found = applicable_in_services(provider, services, item, destination);
        assert(found == left + right);
        assert forall|j: int, k: int|
            0 <= j < services.len() && 0 <= k < services[j].rates.len() && fits(
                item,
                #[trigger] services[j].rates[k],
                destination,
            ) implies found.contains(offer(provider, services[j], services[j].rates[k], destination)) by {
            let x = offer(provider, services[j], services[j].rates[k], destination);
            if j < earlier.len() {
                assert(earlier[j] == services[j]);
                assert(fits(item, earlier[j].rates[k], destination));
                let i = choose|i: int| 0 <= i < left.len() && left[i] == x;
                assert(found[i] == x);
            } else {
                assert(services[j] == last);
                assert(fits(item, last.rates[k], destination));
                let i = choose|i: int| 0 <= i < right.len() && right[i] == x;
                assert(found[left.len() + i] == x);
            }
        }
    }
}

proof fn lemma_applicable_services_complete(
    providers: Seq<ProviderInfoModel>,
    item: ShippingItem,
    destination: Seq<char>,
)
    ensures
        forall|i: int, j: int, k: int|
            0 <= i < providers.len() && 0 <= j < providers[i].services.len() && 0 <= k
                < providers[i].services[j].rates.len() && fits(
                item,
                #[trigger] providers[i].services[j].rates[k],
                destination,
            ) ==> applicable_services(providers, item, destination).contains(
                offer(
                    providers[i],
                    providers[i].services[j],
                    providers[i].services[j].rates[k],
                    destination,
                ),
            ),
    decreases providers.len(),
{
    if providers.len() > 0 {
        let earlier = providers.drop_last();
        let last = providers.last();
        lemma_applicable_services_complete(earlier, item, destination);
        lemma_applicable_in_services_complete(last, last.services, item, destination);
        let left = applicable_services(earlier, item, destination);
        let right = applicable_in_services(last, last.services, item, destination);
        let found = applicable_services(providers, item, destination);
        assert(found == left + right);
        assert forall|i: int, j: int, k: int|
            0 <= i < providers.len() && 0 <= j < providers[i].services.len() && 0 <= k
                < providers[i].services[j].rates.len() && fits(
                item,
                #[trigger] providers[i].services[j].rates[k],
                destination,
            ) implies found.contains(
            offer(
                providers[i],
                providers[i].services[j],
                providers[i].services[j].rates[k],
                destination,
            ),
        ) by {
            let x = offer(
                providers[i],
                providers[i].services[j],
                providers[i].services[j].rates[k],
                destination,
            );
            if i < earlier.len() {
                assert(earlier[i] == providers[i]);
                assert(fits(item, earlier[i].services[j].rates[k], destination));
                let t = choose|t: int| 0 <= t < left.len() && left[t] == x;
                assert(found[t] == x);
            } else {
                assert(providers[i] == last);
                assert(fits(item, last.services[j].rates[k], destination));
                let t = choose|t: int| 0 <= t < right.len() && right[t] == x;
                assert(found[left.len() + t] == x);
            }
        }
    }
}

/// Each item that some service fits has a result, with those services.
proof fn lemma_item_results_cover_items(
    providers: Seq<ProviderInfoModel>,
    items: Seq<ShippingItem>,
    destination: Seq<char>,
)
    ensures
        forall|m: int|
            0 <= m < items.len() && applicable_services(providers, #[trigger] items[m], destination).len()
                > 0 ==> item_results(providers, items, destination).contains(
                ItemResultModel {
                    item_identifier: items[m].identifier@,
                    applicable_services: applicable_services(providers, items[m], destination),
                },
            ),
    decreases items.len(),
{
    if items.len() > 0 {
        let earlier = items.drop_last();
        lemma_item_results_cover_items(providers, earlier, destination);
        let out = item_results(providers, items, destination);
        let out_earlier = item_results(providers, earlier, destination);
        assert forall|m: int|
            0 <= m < items.len() && applicable_services(providers, #[trigger] items[m], destination).len()
                > 0 implies out.contains(
            ItemResultModel {
                item_identifier: items[m].identifier@,
                applicable_services: applicable_services(providers, items[m], destination),
            },
        ) by {
            let x = ItemResultModel {
                item_identifier: items[m].identifier@,
                applicable_services: applicable_services(providers, items[m], destination),
            };
            if m < earlier.len() {
                assert(earlier[m] == items[m]);
                let t = choose|t: int| 0 <= t < out_earlier.len() && out_earlier[t] == x;
                assert(out[t] == x);
            } else {
                assert(items[m] == items.last());
                assert(out[out.len() - 1] == x);
            }
        }
    }
}

/// Every rate class of the providers that fits one of the items, and has a
/// price for the destination, is reported for that item.
pub open spec fn reports_every_fit(
    results: Seq<ItemResultModel>,
    providers: Seq<ProviderInfoModel>,
    items: Seq<ShippingItem>,
    destination: Seq<char>,
) -> bool {
    forall|m: int, i: int, j: int, k: int|
        0 <= m < items.len() && 0 <= i < providers.len() && 0 <= j < providers[i].services.len()
            && 0 <= k < providers[i].services[j].rates.len() && fits(
            #[trigger] items[m],
            #[trigger] providers[i].services[j].rates[k],
            destination,
        ) ==> exists|n: int|
            0 <= n < results.len() && results[n].item_identifier == items[m].identifier@
                && (#[trigger] results[n]).applicable_services.contains(
                offer(
                    providers[i],
                    providers[i].services[j],
                    providers[i].services[j].rates[k],
                    destination,
                ),
            )
}

/// Every rate class of the providers selected for a query that fits one of
/// its items, and has a price for the destination, is reported for that item.
pub proof fn lemma_rates_complete(db: &ShippingDatabase, query: &ShippingRateQuery)
    ensures
        db.spec_rates(query) matches Ok(results) ==> reports_every_fit(
            results,
            db.selected_providers(query)->Ok_0,
            query.items@,
            query.destination_region.country@,
        ),
{
    if let Ok(ps) = db.selected_providers(query) {
        let items = query.items@;
        let destination = query.destination_region.country@;
        let results = item_results(ps, items, destination);
        lemma_item_results_cover_items(ps, items, destination);
        assert forall|m: int, i: int, j: int, k: int|
            0 <= m < items.len() && 0 <= i < ps.len() && 0 <= j < ps[i].services.len() && 0 <= k
                < ps[i].services[j].rates.len() && fits(
                #[trigger] items[m],
                #[trigger] ps[i].services[j].rates[k],
                destination,
            ) implies exists|n: int|
            0 <= n < results.len() && results[n].item_identifier == items[m].identifier@
                && (#[trigger] results[n]).applicable_services.contains(
                offer(ps[i], ps[i].services[j], ps[i].services[j].rates[k], destination),
            ) by {
            let item = items[m];
            lemma_applicable_services_complete(ps, item, destination);
            let found = applicable_services(ps, item, destination);
            assert(found.contains(
                offer(ps[i], ps[i].services[j], ps[i].services[j].rates[k], destination),
            ));
            assert(found.len() > 0);
            let x = ItemResultModel { item_identifier: item.identifier@, applicable_services: found };
            assert(results.contains(x));
            let n = choose|n: int| 0 <= n < results.len() && results[n] == x;
            assert(results[n].applicable_services == found);
        }
        assert(reports_every_fit(results, ps, items, destination));
    }
}

/// Sum of the cheapest price of each result, in cents.
pub open spec fn cheapest_sum(results: Seq<ItemResultModel>) -> int
    decreases results.len(),
{
    if results.len() == 0 {
        0
    } else {
        cheapest_sum(results.drop_last()) + cheapest(
            results.last().applicable_services,
        ).rate.online_price
    }
}

proof fn lemma_total_of_best(results: Seq<ItemResultModel>)
    ensures
        total_cost(results.map_values(|r: ItemResultModel| best_of(r))) == cheapest_sum(results),
    decreases results.len(),
{
    let best = results.map_values(|r: ItemResultModel| best_of(r));
    if results.len() > 0 {
        lemma_total_of_best(results.drop_last());
        assert(best.drop_last() =~= results.drop_last().map_values(|r: ItemResultModel| best_of(r)));
        let one = best.last().applicable_services;
        assert(one.drop_last() =~= Seq::<ApplicableServiceModel>::empty());
        assert(price_sum(one.drop_last()) == 0);
    }
}

/// The total shipping cost of a query is the sum, over the items that some
/// rate fits, of the price of the item's cheapest rate.
pub proof fn lemma_total_cost_is_sum_of_cheapest(db: &ShippingDatabase, query: &ShippingRateQuery)
    ensures
        db.spec_rates(query) matches Ok(all) ==> db.spec_best_rates(query) == Ok::<
            Seq<ItemResultModel>,
            ShippingError,
        >(all.map_values(|r: ItemResultModel| best_of(r))) && total_cost(
            all.map_values(|r: ItemResultModel| best_of(r)),
        ) == cheapest_sum(all),
{
    if let Ok(all) = db.spec_rates(query) {
        lemma_total_of_best(all);
    }
}

/// Two queries that differ only in the subdivisions of their regions.
pub open spec fn same_but_regions(a: &ShippingRateQuery, b: &ShippingRateQuery) -> bool {
    &&& a.source_region.country@ == b.source_region.country@
    &&& a.destination_region.country@ == b.destination_region.country@
    &&& a.items@ == b.items@
    &&& a.provider == b.provider
    &&& a.service_level == b.service_level
}

/// Rates go by country: the subdivisions of the regions (an island, a remote
/// area) change no answer.
pub proof fn lemma_rates_ignore_regions(
    db: &ShippingDatabase,
    a: &ShippingRateQuery,
    b: &ShippingRateQuery,
)
    requires
        same_but_regions(a, b),
    ensures
        db.spec_rates(a) == db.spec_rates(b),
        db.spec_best_rates(a) == db.spec_best_rates(b),
        db.query_in_range(a) == db.query_in_range(b),
{
}

proof fn lemma_item_results_append(
    providers: Seq<ProviderInfoModel>,
    first: Seq<ShippingItem>,
    second: Seq<ShippingItem>,
    destination: Seq<char>,
)
    ensures
        item_results(providers, first + second, destination) == item_results(
            providers,
            first,
            destination,
        ) + item_results(providers, second, destination),
    decreases second.len(),
{
    if second.len() == 0 {
        assert(first + second =~= first);
        assert(item_results(providers, first, destination) + item_results(
            providers,
            second,
            destination,
        ) =~= item_results(providers, first, destination));
    } else {
        lemma_item_results_append(providers, first, second.drop_last(), destination);
        assert((first + second).drop_last() =~= first + second.drop_last());
        assert((first + second).last() == second.last());
        let left = item_results(providers, first, destination);
        let right_earlier = item_results(providers, second.drop_last(), destination);
        let found = applicable_services(providers, second.last(), destination);
        if found.len() > 0 {
            let x = ItemResultModel {
                item_identifier: second.last().identifier@,
                applicable_services: found,
            };
            assert(left + right_earlier.push(x) =~= (left + right_earlier).push(x));
        }
    }
}

/// Each item is rated on its own: the answer for the items of one query
/// followed by those of another is the first answer followed by the second.
pub proof fn lemma_rates_of_joined_items(
    db: &ShippingDatabase,
    first: &ShippingRateQuery,
    second: &ShippingRateQuery,
    joined: &ShippingRateQuery,
)
    requires
        first.source_region.country@ == joined.source_region.country@,
        second.source_region.country@ == joined.source_region.country@,
        first.destination_region.country@ == joined.destination_region.country@,
        second.destination_region.country@ == joined.destination_region.country@,
        first.provider == joined.provider,
        second.provider == joined.provider,
        first.service_level == joined.service_level,
        second.service_level == joined.service_level,
        joined.items@ == first.items@ + second.items@,
    ensures
        match (db.spec_rates(first), db.spec_rates(second)) {
            (Ok(a), Ok(b)) => db.spec_rates(joined) == Ok::<_, ShippingError>(a + b),
            (Err(e), _) => db.spec_rates(joined) == Err::<Seq<ItemResultModel>, _>(e),
            (_, Err(e)) => db.spec_rates(joined) == Err::<Seq<ItemResultModel>, _>(e),
        },
{
    if let Ok(ps) = db.selected_providers(joined) {
        lemma_item_results_append(
            ps,
            first.items@,
            second.items@,
            joined.destination_region.country@,
        );
    }
}

/// The rates, the best rates and (by its contract) the total cost of a query
/// fail together, with the same error; with no item that any rate fits, the
/// total is 0.
pub proof fn lemma_answers_fail_together(db: &ShippingDatabase, query: &ShippingRateQuery)
    ensures
        db.spec_rates(query) is Err <==> db.spec_best_rates(query) is Err,
        db.spec_rates(query) matches Err(e) ==> db.spec_best_rates(query) == Err::<
            Seq<ItemResultModel>,
            _,
        >(e),
        db.spec_best_rates(query) matches Ok(best) ==> (best.len() == 0 ==> total_cost(best)
            == 0),
{
}

proof fn lemma_filter_of_empty<A>(s: Seq<A>, pred: spec_fn(A) -> bool)
    requires
        s.len() == 0,
    ensures
        s.filter(pred).len() == 0,
{
    reveal(Seq::filter);
}

proof fn lemma_filter_all<A>(s: Seq<A>, pred: spec_fn(A) -> bool)
    requires
        forall|x: A| #[trigger] pred(x),
    ensures
        s.filter(pred) == s,
    decreases s.len(),
{
    reveal(Seq::filter);
    if s.len() > 0 {
        lemma_filter_all(s.drop_last(), pred);
        assert(s.drop_last().push(s.last()) =~= s);
    }
}

proof fn lemma_filter_filter<A>(s: Seq<A>, a: spec_fn(A) -> bool, b: spec_fn(A) -> bool)
    ensures
        s.filter(a).filter(b) == s.filter(|x: A| a(x) && b(x)),
    decreases s.len(),
{
    reveal(Seq::filter);
    if s.len() > 0 {
        let t = s.drop_last();
        lemma_filter_filter(t, a, b);
        let fa = t.filter(a);
        assert(fa.push(s.last()).drop_last() =~= fa);
    }
}

proof fn lemma_map_filter<A, B>(s: Seq<A>, f: spec_fn(A) -> B, pred: spec_fn(B) -> bool)
    ensures
        s.map_values(f).filter(pred) == s.filter(|x: A| pred(f(x))).map_values(f),
    decreases s.len(),
{
    reveal(Seq::filter);
    if s.len() > 0 {
        let t = s.drop_last();
        lemma_map_filter(t, f, pred);
        assert(s.map_values(f).drop_last() =~= t.map_values(f));
        let kept = t.filter(|x: A| pred(f(x)));
        assert(kept.push(s.last()).map_values(f) =~= kept.map_values(f).push(f(s.last())));
    }
}

proof fn lemma_map_identity<A>(s: Seq<A>, f: spec_fn(A) -> A)
    requires
        forall|x: A| #[trigger] f(x) == x,
    ensures
        s.map_values(f) == s,
{
    assert(s.map_values(f) =~= s);
}

/// A filter leaves something exactly when some element passes it.
proof fn lemma_filter_nonempty<A>(s: Seq<A>, pred: spec_fn(A) -> bool)
    ensures
        s.filter(pred).len() > 0 <==> exists|j: int| 0 <= j < s.len() && pred(s[j]),
{
    broadcast use vstd::seq_lib::group_filter_ensures;

    lemma_filter_keeps(s, pred);
    if exists|j: int| 0 <= j < s.len() && pred(s[j]) {
        let j = choose|j: int| 0 <= j < s.len() && pred(s[j]);
        assert(s.filter(pred).contains(s[j]));
    }
    if s.filter(pred).len() > 0 {
        let x = s.filter(pred)[0];
        assert(pred(x) && s.contains(x));
    }
}

/// The query takes this provider of the country of origin: it is the provider
/// the query names, if one is named, and has a service at the level the query
/// names, if one is named.
pub open spec fn takes_provider(query: &ShippingRateQuery, p: ProviderInfoModel) -> bool {
    &&& query.provider matches Some(x) ==> p.id == x
    &&& query.service_level matches Some(l) ==> exists|j: int|
        0 <= j < p.services.len() && p.services[j].service == l
}

/// The provider as the query keeps it: whole when no level is named, else
/// with only its services at that level, in their order.
pub open spec fn as_taken(query: &ShippingRateQuery, p: ProviderInfoModel) -> ProviderInfoModel {
    match query.service_level {
        None => p,
        Some(l) => ProviderInfoModel {
            name: p.name,
            id: p.id,
            services: p.services.filter(at_level(l)),
        },
    }
}

pub open spec fn taken_by(query: &ShippingRateQuery) -> spec_fn(ProviderInfoModel) -> bool {
    |p: ProviderInfoModel| takes_provider(query, p)
}

pub open spec fn kept_by(query: &ShippingRateQuery) -> spec_fn(ProviderInfoModel) -> ProviderInfoModel {
    |p: ProviderInfoModel| as_taken(query, p)
}

/// Which providers answer a query: the providers of the country of origin
/// that the query takes, in their order, each as the query keeps it (whole,
/// with every service, when no level is named). The query fails when the
/// country has no rates, or when it names a provider or a level and takes
/// none of the country's providers.
pub proof fn lemma_selected_providers_meaning(db: &ShippingDatabase, query: &ShippingRateQuery)
    ensures
        !db@.contains_key(query.source_region.country@) ==> db.selected_providers(query)
            == Err::<Seq<ProviderInfoModel>, _>(ShippingError::CountryNotFound),
        db@.contains_key(query.source_region.country@) ==> {
            let taken = db@[query.source_region.country@].filter(taken_by(query)).map_values(
                kept_by(query),
            );
            let unfiltered = query.provider is None && query.service_level is None;
            &&& taken.len() == 0 && !unfiltered ==> db.selected_providers(query) == Err::<
                Seq<ProviderInfoModel>,
                _,
            >(ShippingError::NoProvidersFound)
            &&& taken.len() > 0 || unfiltered ==> db.selected_providers(query) == Ok::<
                _,
                ShippingError,
            >(taken)
        },
{
    let source = query.source_region.country@;
    if db@.contains_key(source) {
        let ps = db@[source];
        let takes = taken_by(query);
        let f = kept_by(query);
        let p1 = match query.provider {
            Some(x) => offered_by(x),
            None => |p: ProviderInfoModel| true,
        };
        let p2 = match query.service_level {
            Some(l) => |p: ProviderInfoModel| restricted_to_level(p, l).services.len() > 0,
            None => |p: ProviderInfoModel| true,
        };
        let chosen = ps.filter(p1);
        assert(provider_choice(ps, query.provider) matches Some(c) ==> c == chosen) by {
            if query.provider is None {
                lemma_filter_all(ps, p1);
            }
        }
        assert forall|p: ProviderInfoModel| #[trigger] takes(p) == (p1(p) && p2(p)) by {
            if let Some(l) = query.service_level {
                lemma_filter_nonempty(p.services, at_level(l));
            }
        }
        let both = |p: ProviderInfoModel| p1(p) && p2(p);
        assert(takes =~= both);
        lemma_filter_filter(ps, p1, p2);
        let taken = ps.filter(takes).map_values(f);
        assert(taken == chosen.filter(p2).map_values(f));
        if let Some(l) = query.service_level {
            let g = restrict_to_level(l);
            assert(f =~= g);
            let h = |p: ProviderInfoModel| has_services()(g(p));
            assert(h =~= p2);
            lemma_map_filter(chosen, g, has_services());
        } else {
            lemma_filter_all(chosen, p2);
            lemma_map_identity(chosen, f);
        }
        if chosen.len() == 0 {
            lemma_filter_of_empty(chosen, p2);
        }
    }
}

/// A query that names neither a provider nor a level gets the rates of every
/// provider and every service of the country of origin: each rate class that
/// fits one of its items and has a price for the destination is reported.
pub proof fn lemma_unfiltered_query_reports_every_fit(db: &ShippingDatabase, query: &ShippingRateQuery)
    requires
        query.provider is None,
        query.service_level is None,
        db@.contains_key(query.source_region.country@),
    ensures
        db.spec_rates(query) matches Ok(results) && reports_every_fit(
            results,
            db@[query.source_region.country@],
            query.items@,
            query.destination_region.country@,
        ),
{
    let ps = db@[query.source_region.country@];
    lemma_selected_providers_meaning(db, query);
    lemma_filter_all(ps, taken_by(query));
    lemma_map_identity(ps, kept_by(query));
    lemma_rates_complete(db, query);
}

} // verus!
