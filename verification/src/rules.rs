//! The distance-vector rules of the routing table, as spec functions,
//! and the laws that they obey.
use vstd::prelude::*;
use crate::config::{Endpoint, Neighbor};
use crate::proto::message::MAX_ENTRIES;
use crate::error::Error;
use crate::proto::entry::{entry_is_valid, Entry, ALLOWED_NETMASK, INFINITY};
use crate::table::{
    initial_routes, lists_routes, neighbor_at, spec_as_entry, ActionSpec, PeerAddr, Route, AF_INET,
};

verus! {

/// The network that an entry names: its address under its mask.
pub open spec fn spec_entry_prefix(e: Entry) -> u32 {
    e.ip_address & e.subnet_mask
}

/// The cost of reaching an entry's network through a neighbor: the cost
/// of the link plus the entry's metric, capped at 16.
pub open spec fn learned_metric(n: Neighbor, e: Entry) -> u32 {
    if n.metric + e.metric < INFINITY {
        (n.metric + e.metric) as u32
    } else {
        INFINITY
    }
}

/// The route that an entry from a neighbor offers.
pub open spec fn learned_route(n: Neighbor, e: Entry) -> Route {
    Route {
        destination: e.ip_address,
        next_hop: n.address.ip,
        subnet_mask: e.subnet_mask,
        metric: learned_metric(n, e),
    }
}

/// `r` taken through the neighbor `n` at cost `metric`; its destination
/// and mask stay.
pub open spec fn rerouted(r: Route, n: Neighbor, metric: u32) -> Route {
    Route {
        destination: r.destination,
        next_hop: n.address.ip,
        subnet_mask: r.subnet_mask,
        metric,
    }
}

/// Whether an entry from `n` replaces the route that the table already
/// has to its network: it does when that route goes through `n`, or when
/// the entry offers a lower cost.
pub open spec fn replaces(routes: Map<u32, Route>, n: Neighbor, e: Entry) -> bool {
    let p = spec_entry_prefix(e);
    routes[p].next_hop == n.address.ip || learned_metric(n, e) < routes[p].metric
}

/// The routes after an entry from neighbor `n`: a new network is added
/// unless it is unreachable (cost 16); a known one is rerouted through
/// `n` at the new cost when the entry replaces it; else nothing changes.
pub open spec fn routes_after_entry(routes: Map<u32, Route>, n: Neighbor, e: Entry) -> Map<
    u32,
    Route,
> {
    let p = spec_entry_prefix(e);
    if !routes.contains_key(p) {
        if learned_metric(n, e) < INFINITY {
            routes.insert(p, learned_route(n, e))
        } else {
            routes
        }
    } else if replaces(routes, n, e) {
        routes.insert(p, rerouted(routes[p], n, learned_metric(n, e)))
    } else {
        routes
    }
}

/// A triggered update for `r`: it is reported, then every neighbor, in
/// order, gets a response with the one entry that announces `r` to it.
pub open spec fn triggered_update(r: Route, ns: Seq<Neighbor>) -> Seq<ActionSpec> {
    seq![ActionSpec::AnnounceTrigger(r.destination)] + ns.map_values(
        |nb: Neighbor| ActionSpec::SendTriggered(nb.address, spec_as_entry(r, nb.address.ip)),
    )
}

/// What the router does on an entry from neighbor `n`: for a new route,
/// restart its timer, send a triggered update and print the table; for a
/// replaced route, restart its timer, send a triggered update for the
/// route as it now is when its metric changed, and print the table; for
/// a route that stays, print the table; for an unreachable new network,
/// nothing.
pub open spec fn actions_after_entry(
    routes: Map<u32, Route>,
    ns: Seq<Neighbor>,
    n: Neighbor,
    e: Entry,
) -> Seq<ActionSpec> {
    let p = spec_entry_prefix(e);
    if !routes.contains_key(p) {
        if learned_metric(n, e) < INFINITY {
            seq![ActionSpec::RestartTimer(p)] + triggered_update(learned_route(n, e), ns) + seq![
                ActionSpec::PrintTable,
            ]
        } else {
            Seq::empty()
        }
    } else if replaces(routes, n, e) {
        if learned_metric(n, e) != routes[p].metric {
            seq![ActionSpec::RestartTimer(p)] + triggered_update(
                rerouted(routes[p], n, learned_metric(n, e)),
                ns,
            ) + seq![ActionSpec::PrintTable]
        } else {
            seq![ActionSpec::RestartTimer(p), ActionSpec::PrintTable]
        }
    } else {
        seq![ActionSpec::PrintTable]
    }
}

/// The entry by which a responding neighbor stands for itself: its own
/// address under its mask, at cost 0.
pub open spec fn own_entry(n: Neighbor, from: u32) -> Entry {
    Entry {
        address_family_id: AF_INET,
        route_tag: 0,
        ip_address: from,
        subnet_mask: n.subnet_mask,
        metric: 0,
    }
}

/// The routes after taking in the entries `es` from `n` one after
/// another, and the actions that they cause, in order.
pub open spec fn fold_entries(
    routes: Map<u32, Route>,
    ns: Seq<Neighbor>,
    n: Neighbor,
    es: Seq<Entry>,
) -> (Map<u32, Route>, Seq<ActionSpec>)
    decreases es.len(),
{
    if es.len() == 0 {
        (routes, Seq::empty())
    } else {
        let (r0, a0) = fold_entries(routes, ns, n, es.drop_last());
        (routes_after_entry(r0, n, es.last()), a0 + actions_after_entry(r0, ns, n, es.last()))
    }
}

/// Where the first invalid entry of `es` stands, or its length when all
/// are valid.
pub open spec fn first_invalid(es: Seq<Entry>) -> int {
    if exists|i: int|
        0 <= i < es.len() && !entry_is_valid(#[trigger] es[i]) && forall|j: int|
            0 <= j < i ==> entry_is_valid(#[trigger] es[j]) {
        choose|i: int|
            0 <= i < es.len() && !entry_is_valid(#[trigger] es[i]) && forall|j: int|
                0 <= j < i ==> entry_is_valid(#[trigger] es[j])
    } else {
        es.len() as int
    }
}

/// The error by which `Entry::validate` refuses an invalid entry.
pub open spec fn validate_error(e: Entry) -> Error {
    if e.subnet_mask != ALLOWED_NETMASK {
        Error::InvalidNetmask(e.subnet_mask)
    } else {
        Error::MetricOutOfBounds(e.metric)
    }
}

/// The entries of a response from `n` at `from` that the router takes
/// in: first the neighbor's own, then those before the first invalid one.
pub open spec fn accepted_entries(n: Neighbor, from: u32, es: Seq<Entry>) -> Seq<Entry> {
    seq![own_entry(n, from)] + es.take(first_invalid(es))
}

/// Taking in a response adds no cost beyond what a `u32` holds: the
/// sender's link cost plus the metric of each entry that is taken in.
pub open spec fn response_fits(ns: Seq<Neighbor>, es: Seq<Entry>, from: PeerAddr) -> bool {
    match from {
        PeerAddr::V4(a) => match neighbor_at(ns, a.ip) {
            Some(n) => forall|i: int|
                0 <= i < first_invalid(es) ==> n.metric + #[trigger] es[i].metric <= u32::MAX,
            None => true,
        },
        PeerAddr::V6 => true,
    }
}

/// `r` after its neighbor has gone silent: unreachable.
pub open spec fn expired(r: Route) -> Route {
    Route { destination: r.destination, next_hop: r.next_hop, subnet_mask: r.subnet_mask, metric: INFINITY }
}

/// `entries` announce the routes of `routes` to the neighbor at `ip`, in
/// the order of some walk of them: one entry per route.
pub open spec fn is_update_for(entries: Seq<Entry>, routes: Map<u32, Route>, ip: u32) -> bool {
    exists|order: Seq<(u32, Route)>|
        lists_routes(order, routes) && entries == announcements(order, ip)
}

/// The entries that announce the routes of `order`, in order, to the
/// neighbor at `ip`.
pub open spec fn announcements(order: Seq<(u32, Route)>, ip: u32) -> Seq<Entry> {
    order.map_values(|p: (u32, Route)| spec_as_entry(p.1, ip))
}

/// Where all entries before `k` are valid and `k` is the end or an
/// invalid one, the first invalid entry stands at `k`.
pub proof fn lemma_first_invalid(es: Seq<Entry>, k: int)
    requires
        0 <= k <= es.len(),
        forall|j: int| 0 <= j < k ==> entry_is_valid(#[trigger] es[j]),
        k < es.len() ==> !entry_is_valid(es[k]),
    ensures
        first_invalid(es) == k,
{
    if k < es.len() {
        assert(!entry_is_valid(es[k]));
        let c = first_invalid(es);
        if c < k {
            assert(entry_is_valid(es[c]));
        }
        if k < c {
            assert(entry_is_valid(es[k]));
        }
    } else {
        if exists|i: int|
            0 <= i < es.len() && !entry_is_valid(#[trigger] es[i]) && forall|j: int|
                0 <= j < i ==> entry_is_valid(#[trigger] es[j]) {
            let c = choose|i: int|
                0 <= i < es.len() && !entry_is_valid(#[trigger] es[i]) && forall|j: int|
                    0 <= j < i ==> entry_is_valid(#[trigger] es[j]);
            assert(entry_is_valid(es[c]));
        }
    }
}

/// Where the entries up to `i` are valid, the first invalid one stands
/// after `i`.
pub proof fn lemma_first_invalid_after(es: Seq<Entry>, i: int)
    requires
        0 <= i < es.len(),
        forall|j: int| 0 <= j <= i ==> entry_is_valid(#[trigger] es[j]),
    ensures
        i < first_invalid(es),
{
    if exists|c: int|
        0 <= c < es.len() && !entry_is_valid(#[trigger] es[c]) && forall|j: int|
            0 <= j < c ==> entry_is_valid(#[trigger] es[j]) {
        let c = first_invalid(es);
        if c <= i {
            assert(entry_is_valid(es[c]));
        }
    }
}

/// Taking in an entry removes no route, and changes none but the route
/// to the entry's network.
pub proof fn lemma_entry_touches_one_route(routes: Map<u32, Route>, n: Neighbor, e: Entry)
    ensures
        forall|k: u32| #[trigger]
            routes.contains_key(k) ==> routes_after_entry(routes, n, e).contains_key(k),
        forall|k: u32|
            k != spec_entry_prefix(e) ==> (#[trigger] routes_after_entry(routes, n, e).contains_key(k)
                <==> routes.contains_key(k)) && routes_after_entry(routes, n, e)[k] == routes[k],
        routes_after_entry(routes, n, e).dom() == routes.dom() || routes_after_entry(
            routes,
            n,
            e,
        ).dom() == routes.dom().insert(spec_entry_prefix(e)),
        routes.dom().finite() ==> routes_after_entry(routes, n, e).dom().finite()
            && routes.len() <= routes_after_entry(routes, n, e).len() <= routes.len() + 1,
{
    let p = spec_entry_prefix(e);
    let after = routes_after_entry(routes, n, e);
    if after.dom() =~= routes.dom() {
    } else {
        assert(after.dom() =~= routes.dom().insert(p));
        if routes.dom().finite() {
            assert(!routes.contains_key(p));
        }
    }
}

/// Only the neighbor that a route goes through can make it worse: an
/// entry from any other neighbor keeps each route's cost or lowers it,
/// to the lower of the old cost and the offered one.
pub proof fn lemma_only_next_hop_worsens(routes: Map<u32, Route>, n: Neighbor, e: Entry)
    ensures
        forall|k: u32| #[trigger]
            routes.contains_key(k) && routes[k].next_hop != n.address.ip ==> routes_after_entry(
                routes,
                n,
                e,
            )[k].metric <= routes[k].metric,
        routes.contains_key(spec_entry_prefix(e)) && routes[spec_entry_prefix(e)].next_hop
            != n.address.ip ==> routes_after_entry(routes, n, e)[spec_entry_prefix(e)].metric == if learned_metric(
            n,
            e,
        ) < routes[spec_entry_prefix(e)].metric {
            learned_metric(n, e)
        } else {
            routes[spec_entry_prefix(e)].metric
        },
{
}

/// A network that the table does not know is learned only when it is
/// reachable, at the offered cost, through the neighbor that offered it.
pub proof fn lemma_unreachable_not_learned(routes: Map<u32, Route>, n: Neighbor, e: Entry)
    requires
        !routes.contains_key(spec_entry_prefix(e)),
    ensures
        routes_after_entry(routes, n, e).contains_key(spec_entry_prefix(e)) <==> learned_metric(n, e)
            < INFINITY,
        routes_after_entry(routes, n, e).contains_key(spec_entry_prefix(e)) ==> routes_after_entry(
            routes,
            n,
            e,
        )[spec_entry_prefix(e)] == learned_route(n, e),
{
}

/// Hearing the same entry from the same neighbor again changes nothing.
pub proof fn lemma_entry_idempotent(routes: Map<u32, Route>, n: Neighbor, e: Entry)
    ensures
        routes_after_entry(routes_after_entry(routes, n, e), n, e) == routes_after_entry(
            routes,
            n,
            e,
        ),
{
    let p = spec_entry_prefix(e);
    let once = routes_after_entry(routes, n, e);
    if once.contains_key(p) {
        assert(once[p].next_hop == n.address.ip || !routes.contains_key(p) || !replaces(routes, n, e));
        if routes.contains_key(p) && !replaces(routes, n, e) {
            assert(once == routes);
        } else {
            assert(routes_after_entry(once, n, e) =~= once);
        }
    }
}

/// The cost of every route that an entry adds or changes is at most 16.
pub proof fn lemma_learned_metric_capped(routes: Map<u32, Route>, n: Neighbor, e: Entry)
    ensures
        learned_metric(n, e) <= INFINITY,
        routes_after_entry(routes, n, e).contains_key(spec_entry_prefix(e))
            && routes_after_entry(routes, n, e)[spec_entry_prefix(e)] != routes[spec_entry_prefix(e)]
            ==> routes_after_entry(routes, n, e)[spec_entry_prefix(e)].metric <= INFINITY,
{
}

/// A response removes no route.
pub proof fn lemma_response_keeps_routes(
    routes: Map<u32, Route>,
    ns: Seq<Neighbor>,
    n: Neighbor,
    es: Seq<Entry>,
)
    ensures
        forall|k: u32| #[trigger]
            routes.contains_key(k) ==> fold_entries(routes, ns, n, es).0.contains_key(k),
    decreases es.len(),
{
    if es.len() > 0 {
        lemma_response_keeps_routes(routes, ns, n, es.drop_last());
        lemma_entry_touches_one_route(fold_entries(routes, ns, n, es.drop_last()).0, n, es.last());
    }
}

/// A timeout removes no route and makes the timed-out one unreachable;
/// the others stay as they were.
pub proof fn lemma_timeout_expires_one(routes: Map<u32, Route>, p: u32)
    requires
        routes.contains_key(p),
    ensures
        routes.insert(p, expired(routes[p])).dom() == routes.dom(),
        routes.insert(p, expired(routes[p]))[p].metric == INFINITY,
        forall|k: u32| k != p ==> #[trigger] routes.insert(p, expired(routes[p]))[k] == routes[k],
{
    assert(routes.insert(p, expired(routes[p])).dom() =~= routes.dom());
}

/// Every route that an entry from `n` adds or changes goes through `n`.
pub proof fn lemma_entry_changes_go_through_sender(routes: Map<u32, Route>, n: Neighbor, e: Entry)
    ensures
        forall|k: u32| #[trigger]
            routes_after_entry(routes, n, e).contains_key(k) && (!routes.contains_key(k)
                || routes_after_entry(routes, n, e)[k] != routes[k]) ==> routes_after_entry(
                routes,
                n,
                e,
            )[k].next_hop == n.address.ip,
{
}

/// Every route that a response from `n` adds or changes goes through `n`.
pub proof fn lemma_response_changes_go_through_sender(
    routes: Map<u32, Route>,
    ns: Seq<Neighbor>,
    n: Neighbor,
    es: Seq<Entry>,
)
    ensures
        forall|k: u32| #[trigger]
            fold_entries(routes, ns, n, es).0.contains_key(k) && (!routes.contains_key(k)
                || fold_entries(routes, ns, n, es).0[k] != routes[k]) ==> fold_entries(
                routes,
                ns,
                n,
                es,
            ).0[k].next_hop == n.address.ip,
    decreases es.len(),
{
    if es.len() > 0 {
        let mid = fold_entries(routes, ns, n, es.drop_last()).0;
        lemma_response_changes_go_through_sender(routes, ns, n, es.drop_last());
        lemma_entry_changes_go_through_sender(mid, n, es.last());
        lemma_entry_touches_one_route(mid, n, es.last());
    }
}

/// `e` announces one of the routes of `routes` to the neighbor at `ip`.
pub open spec fn announces_a_route(e: Entry, routes: Map<u32, Route>, ip: u32) -> bool {
    exists|k: u32| #[trigger] routes.contains_key(k) && e == spec_as_entry(routes[k], ip)
}

/// A periodic update to the neighbor at `ip` holds one entry per route,
/// each announcing its route to that neighbor, with routes that lead to
/// it or through it announced as unreachable.
pub proof fn lemma_update_covers_routes(entries: Seq<Entry>, routes: Map<u32, Route>, ip: u32)
    requires
        is_update_for(entries, routes, ip),
    ensures
        entries.len() == routes.dom().len(),
        forall|k: u32| #[trigger]
            routes.contains_key(k) ==> entries.contains(spec_as_entry(routes[k], ip)),
        forall|i: int|
            0 <= i < entries.len() ==> announces_a_route(#[trigger] entries[i], routes, ip),
        forall|i: int|
            #![trigger entries[i]]
            0 <= i < entries.len() && entries[i].metric != INFINITY ==> exists|k: u32|
                #[trigger] routes.contains_key(k) && entries[i] == spec_as_entry(routes[k], ip)
                    && routes[k].next_hop != ip && routes[k].destination != ip,
{
    let order = choose|order: Seq<(u32, Route)>|
        lists_routes(order, routes) && entries == announcements(order, ip);
    assert forall|k: u32| #[trigger] routes.contains_key(k) implies entries.contains(
        spec_as_entry(routes[k], ip),
    ) by {
        assert(order.contains((k, routes[k])));
        let i = choose|i: int| 0 <= i < order.len() && order[i] == (k, routes[k]);
        assert(entries[i] == spec_as_entry(routes[k], ip));
    }
    assert forall|i: int| 0 <= i < entries.len() implies announces_a_route(
        #[trigger] entries[i],
        routes,
        ip,
    ) by {
        let k = order[i].0;
        assert(entries.len() == order.len());
        assert(lists_routes(order, routes));
        assert(0 <= i < order.len());
        assert(routes.contains_key(order[i].0) && routes[order[i].0] == order[i].1);
        assert(entries[i] == spec_as_entry(order[i].1, ip));
        assert(routes.contains_key(k) && entries[i] == spec_as_entry(routes[k], ip));
    }
    assert forall|i: int|
        #![trigger entries[i]]
        0 <= i < entries.len() && entries[i].metric != INFINITY implies exists|k: u32|
        #[trigger] routes.contains_key(k) && entries[i] == spec_as_entry(routes[k], ip)
            && routes[k].next_hop != ip && routes[k].destination != ip by {
        let k = order[i].0;
        assert(entries.len() == order.len());
        assert(routes.contains_key(order[i].0) && routes[order[i].0] == order[i].1);
        assert(entries[i] == spec_as_entry(order[i].1, ip));
        assert(routes.contains_key(k) && entries[i] == spec_as_entry(routes[k], ip));
    }
}

/// What taking in a response gives: the routes after it, the actions it
/// causes, and its result.
pub struct ResponseOutcome {
    pub routes: Map<u32, Route>,
    pub actions: Seq<ActionSpec>,
    pub result: Result<(), Error>,
}

/// The outcome of a response of `es` from `from`. A sender other than an
/// IPv4 neighbor is refused and nothing changes. Otherwise the neighbor's
/// own entry and then the entries up to the first invalid one are taken
/// in, and the first invalid entry, if any, is refused with
/// `Entry::validate`'s error.
pub open spec fn response_outcome(
    routes: Map<u32, Route>,
    ns: Seq<Neighbor>,
    es: Seq<Entry>,
    from: PeerAddr,
) -> ResponseOutcome {
    match from {
        PeerAddr::V6 => ResponseOutcome {
            routes,
            actions: Seq::empty(),
            result: Err(Error::NotIpv4),
        },
        PeerAddr::V4(a) => match neighbor_at(ns, a.ip) {
            None => ResponseOutcome {
                routes,
                actions: Seq::empty(),
                result: Err(Error::NotANeighbor(a.ip)),
            },
            Some(n) => {
                let (after, acts) = fold_entries(routes, ns, n, accepted_entries(n, a.ip, es));
                ResponseOutcome {
                    routes: after,
                    actions: acts,
                    result: if first_invalid(es) < es.len() {
                        Err(validate_error(es[first_invalid(es)]))
                    } else {
                        Ok(())
                    },
                }
            },
        },
    }
}

/// The entries of one update cut into messages of at most `MAX_ENTRIES`
/// entries, in order; an update of no more than that is one message.
pub open spec fn update_chunks(es: Seq<Entry>) -> Seq<Seq<Entry>>
    decreases es.len(),
{
    if es.len() <= MAX_ENTRIES {
        seq![es]
    } else {
        seq![es.take(MAX_ENTRIES as int)] + update_chunks(es.skip(MAX_ENTRIES as int))
    }
}

/// The responses that carry the update `es` to `to`, one per message.
pub open spec fn update_actions(to: Endpoint, es: Seq<Entry>) -> Seq<ActionSpec> {
    update_chunks(es).map_values(|c: Seq<Entry>| ActionSpec::SendUpdate(to, c))
}

/// The responses of a periodic update: to each neighbor of `ns` in order,
/// the messages of its update in `ups`.
pub open spec fn all_updates(ns: Seq<Neighbor>, ups: Seq<Seq<Entry>>) -> Seq<ActionSpec>
    decreases ns.len(),
{
    if ns.len() == 0 || ups.len() == 0 {
        Seq::empty()
    } else {
        all_updates(ns.drop_last(), ups.drop_last()) + update_actions(ns.last().address, ups.last())
    }
}

/// An update cut into messages: each carries at most `MAX_ENTRIES`
/// entries, and together, in order, they carry the whole update.
pub proof fn lemma_update_chunks(es: Seq<Entry>)
    ensures
        update_chunks(es).len() >= 1,
        forall|i: int|
            0 <= i < update_chunks(es).len() ==> #[trigger] update_chunks(es)[i].len() <= MAX_ENTRIES,
        update_chunks(es).flatten() == es,
    decreases es.len(),
{
    let cs = update_chunks(es);
    if es.len() <= MAX_ENTRIES {
        assert(cs.drop_first() =~= Seq::<Seq<Entry>>::empty());
        assert(Seq::<Seq<Entry>>::empty().flatten() == Seq::<Entry>::empty());
        assert(cs.flatten() == es + Seq::<Entry>::empty());
        assert(cs.flatten() =~= es);
    } else {
        let rest = es.skip(MAX_ENTRIES as int);
        lemma_update_chunks(rest);
        assert(cs.drop_first() =~= update_chunks(rest));
        assert(cs.flatten() == es.take(MAX_ENTRIES as int) + update_chunks(rest).flatten());
        assert(cs.flatten() =~= es);
        assert forall|i: int| 0 <= i < cs.len() implies #[trigger] cs[i].len() <= MAX_ENTRIES by {
            if i > 0 {
                assert(cs[i] == update_chunks(rest)[i - 1]);
            }
        }
    }
}

/// Every route has a cost in 1..=16.
pub open spec fn metrics_in_range(routes: Map<u32, Route>) -> bool {
    forall|k: u32| #[trigger] routes.contains_key(k) ==> 1 <= routes[k].metric <= INFINITY
}

/// Where every route costs 1..=16 and the sender's link costs at least 1,
/// so does every route after an entry.
pub proof fn lemma_entry_keeps_metrics_in_range(routes: Map<u32, Route>, n: Neighbor, e: Entry)
    requires
        metrics_in_range(routes),
        1 <= n.metric,
    ensures
        metrics_in_range(routes_after_entry(routes, n, e)),
{
}

/// Where every route costs 1..=16 and the sender's link costs at least 1,
/// so does every route after a response.
pub proof fn lemma_response_keeps_metrics_in_range(
    routes: Map<u32, Route>,
    ns: Seq<Neighbor>,
    n: Neighbor,
    es: Seq<Entry>,
)
    requires
        metrics_in_range(routes),
        1 <= n.metric,
    ensures
        metrics_in_range(fold_entries(routes, ns, n, es).0),
    decreases es.len(),
{
    if es.len() > 0 {
        lemma_response_keeps_metrics_in_range(routes, ns, n, es.drop_last());
        lemma_entry_keeps_metrics_in_range(fold_entries(routes, ns, n, es.drop_last()).0, n, es.last());
    }
}

/// A timeout keeps every route's cost in 1..=16.
pub proof fn lemma_timeout_keeps_metrics_in_range(routes: Map<u32, Route>, p: u32)
    requires
        metrics_in_range(routes),
        routes.contains_key(p),
    ensures
        metrics_in_range(routes.insert(p, expired(routes[p]))),
{
}

/// Every response of a periodic update carries at most `MAX_ENTRIES`
/// entries.
pub proof fn lemma_all_updates_bounded(ns: Seq<Neighbor>, ups: Seq<Seq<Entry>>)
    ensures
        forall|i: int|
            0 <= i < all_updates(ns, ups).len() ==> (#[trigger] all_updates(ns, ups)[i] matches ActionSpec::SendUpdate(
                _,
                c,
            ) && c.len() <= MAX_ENTRIES),
    decreases ns.len(),
{
    if ns.len() > 0 && ups.len() > 0 {
        let prev = all_updates(ns.drop_last(), ups.drop_last());
        let last = update_actions(ns.last().address, ups.last());
        lemma_all_updates_bounded(ns.drop_last(), ups.drop_last());
        lemma_update_chunks(ups.last());
        assert forall|i: int| 0 <= i < all_updates(ns, ups).len() implies (#[trigger] all_updates(
            ns,
            ups,
        )[i] matches ActionSpec::SendUpdate(_, c) && c.len() <= MAX_ENTRIES) by {
            if i < prev.len() {
                assert(all_updates(ns, ups)[i] == prev[i]);
            } else {
                assert(all_updates(ns, ups)[i] == last[i - prev.len()]);
                assert(update_chunks(ups.last())[i - prev.len()].len() <= MAX_ENTRIES);
            }
        }
    }
}

/// Where every neighbor's link costs 1..=16, so does every route of a new
/// table.
pub proof fn lemma_initial_metrics_in_range(ns: Seq<Neighbor>)
    requires
        forall|i: int| 0 <= i < ns.len() ==> 1 <= #[trigger] ns[i].metric <= INFINITY,
    ensures
        metrics_in_range(initial_routes(ns)),
    decreases ns.len(),
{
    if ns.len() > 0 {
        assert forall|i: int| 0 <= i < ns.drop_last().len() implies 1 <= #[trigger] ns.drop_last()[i].metric
            <= INFINITY by {
            assert(ns.drop_last()[i] == ns[i]);
        }
        lemma_initial_metrics_in_range(ns.drop_last());
        assert(1 <= ns[ns.len() - 1].metric <= INFINITY);
    }
}

/// An entry for a known network from the neighbor that the route already
/// goes through sets the route's cost to that neighbor's link cost plus
/// the entry's metric, capped at 16, whether that is lower, equal or
/// higher than before; the route keeps its destination, mask and next
/// hop, its timer is restarted, and a triggered update goes out exactly
/// when the cost changed.
pub proof fn lemma_next_hop_sets_metric(
    routes: Map<u32, Route>,
    ns: Seq<Neighbor>,
    n: Neighbor,
    e: Entry,
)
    requires
        routes.contains_key(e.ip_address & e.subnet_mask),
        routes[e.ip_address & e.subnet_mask].next_hop == n.address.ip,
    ensures
        ({
            let p = e.ip_address & e.subnet_mask;
            let old_route = routes[p];
            let after = routes_after_entry(routes, n, e);
            let acts = actions_after_entry(routes, ns, n, e);
            let cost: int = if n.metric + e.metric < INFINITY {
                n.metric + e.metric
            } else {
                INFINITY as int
            };
            &&& after.contains_key(p)
            &&& after[p].metric == cost
            &&& after[p].next_hop == n.address.ip
            &&& after[p].destination == old_route.destination
            &&& after[p].subnet_mask == old_route.subnet_mask
            &&& after.dom() == routes.dom()
            &&& acts.len() >= 2
            &&& acts[0] == ActionSpec::RestartTimer(p)
            &&& acts.last() == ActionSpec::PrintTable
            &&& (cost != old_route.metric <==> acts.len() > 2)
            &&& cost != old_route.metric ==> acts[1] == ActionSpec::AnnounceTrigger(
                old_route.destination,
            )
        }),
{
    let p = e.ip_address & e.subnet_mask;
    assert(routes_after_entry(routes, n, e).dom() =~= routes.dom());
    let acts = actions_after_entry(routes, ns, n, e);
    if learned_metric(n, e) != routes[p].metric {
        let r = rerouted(routes[p], n, learned_metric(n, e));
        assert(acts == seq![ActionSpec::RestartTimer(p)] + triggered_update(r, ns) + seq![
            ActionSpec::PrintTable,
        ]);
        assert(acts[1] == triggered_update(r, ns)[0]);
        assert(acts.last() == ActionSpec::PrintTable);
    }
}

/// An entry for a known network from a neighbor other than the route's
/// next hop changes the route only when the offered cost (link cost plus
/// the entry's metric, capped at 16) is strictly lower: then the route
/// goes through that neighbor at that cost, its timer is restarted and a
/// triggered update goes out. Otherwise (an equal or higher cost) the
/// route stays as it was, and the table is only printed.
pub proof fn lemma_other_neighbor_needs_lower_cost(
    routes: Map<u32, Route>,
    ns: Seq<Neighbor>,
    n: Neighbor,
    e: Entry,
)
    requires
        routes.contains_key(e.ip_address & e.subnet_mask),
        routes[e.ip_address & e.subnet_mask].next_hop != n.address.ip,
    ensures
        ({
            let p = e.ip_address & e.subnet_mask;
            let old_route = routes[p];
            let after = routes_after_entry(routes, n, e);
            let acts = actions_after_entry(routes, ns, n, e);
            let cost: int = if n.metric + e.metric < INFINITY {
                n.metric + e.metric
            } else {
                INFINITY as int
            };
            &&& after.dom() == routes.dom()
            &&& cost < old_route.metric ==> {
                &&& after[p].metric == cost
                &&& after[p].next_hop == n.address.ip
                &&& after[p].destination == old_route.destination
                &&& after[p].subnet_mask == old_route.subnet_mask
                &&& acts.len() > 2
                &&& acts[0] == ActionSpec::RestartTimer(p)
                &&& acts[1] == ActionSpec::AnnounceTrigger(old_route.destination)
                &&& acts.last() == ActionSpec::PrintTable
            }
            &&& cost >= old_route.metric ==> {
                &&& after == routes
                &&& acts == seq![ActionSpec::PrintTable]
            }
        }),
{
    let p = e.ip_address & e.subnet_mask;
    assert(routes_after_entry(routes, n, e).dom() =~= routes.dom());
    let acts = actions_after_entry(routes, ns, n, e);
    if learned_metric(n, e) < routes[p].metric {
        let r = rerouted(routes[p], n, learned_metric(n, e));
        assert(acts == seq![ActionSpec::RestartTimer(p)] + triggered_update(r, ns) + seq![
            ActionSpec::PrintTable,
        ]);
        assert(acts[1] == triggered_update(r, ns)[0]);
        assert(acts.last() == ActionSpec::PrintTable);
    }
}

/// An entry for a network that the table does not know: when the link
/// cost plus the entry's metric is below 16, the route to the entry's
/// address under its mask is added through the sender at that cost, its
/// timer is started, a triggered update announces it to every neighbor
/// in order, and the table is printed; when that cost is 16 or more,
/// nothing changes and nothing is done.
pub proof fn lemma_new_network(routes: Map<u32, Route>, ns: Seq<Neighbor>, n: Neighbor, e: Entry)
    requires
        !routes.contains_key(e.ip_address & e.subnet_mask),
    ensures
        ({
            let p = e.ip_address & e.subnet_mask;
            let after = routes_after_entry(routes, n, e);
            let acts = actions_after_entry(routes, ns, n, e);
            let cost: int = n.metric + e.metric;
            &&& cost < INFINITY ==> {
                &&& after.dom() == routes.dom().insert(p)
                &&& after[p].destination == e.ip_address
                &&& after[p].subnet_mask == e.subnet_mask
                &&& after[p].next_hop == n.address.ip
                &&& after[p].metric == cost
                &&& acts.len() == ns.len() + 3
                &&& acts[0] == ActionSpec::RestartTimer(p)
                &&& acts[1] == ActionSpec::AnnounceTrigger(e.ip_address)
                &&& acts.last() == ActionSpec::PrintTable
            }
            &&& cost >= INFINITY ==> after == routes && acts.len() == 0
        }),
{
    let p = e.ip_address & e.subnet_mask;
    let acts = actions_after_entry(routes, ns, n, e);
    if n.metric + e.metric < INFINITY {
        assert(routes_after_entry(routes, n, e).dom() =~= routes.dom().insert(p));
        let r = learned_route(n, e);
        assert(acts == seq![ActionSpec::RestartTimer(p)] + triggered_update(r, ns) + seq![
            ActionSpec::PrintTable,
        ]);
        assert(acts[1] == triggered_update(r, ns)[0]);
        assert(acts.last() == ActionSpec::PrintTable);
    }
}

/// Poisoned reverse: the entry that announces a route to a neighbor
/// names the route's destination and mask, and carries 16 when the route
/// leads to that neighbor or through it, else the route's cost.
pub proof fn lemma_poisoned_reverse(r: Route, neighbor: u32)
    ensures
        spec_as_entry(r, neighbor).ip_address == r.destination,
        spec_as_entry(r, neighbor).subnet_mask == r.subnet_mask,
        spec_as_entry(r, neighbor).address_family_id == 2,
        r.destination == neighbor || r.next_hop == neighbor ==> spec_as_entry(r, neighbor).metric
            == 16,
        r.destination != neighbor && r.next_hop != neighbor ==> spec_as_entry(r, neighbor).metric
            == r.metric,
{
}

/// A timeout of a known route sets its cost to 16 and keeps its
/// destination, mask and next hop; it then announces the route to every
/// neighbor and prints the table.
pub proof fn lemma_timeout_route(r: Route, ns: Seq<Neighbor>)
    ensures
        expired(r).metric == 16,
        expired(r).destination == r.destination,
        expired(r).subnet_mask == r.subnet_mask,
        expired(r).next_hop == r.next_hop,
        triggered_update(expired(r), ns).len() == ns.len() + 1,
        triggered_update(expired(r), ns)[0] == ActionSpec::AnnounceTrigger(r.destination),
        forall|i: int|
            0 <= i < ns.len() ==> #[trigger] triggered_update(expired(r), ns)[i + 1]
                == ActionSpec::SendTriggered(
                ns[i].address,
                (Entry {
                    address_family_id: 2,
                    route_tag: 0,
                    ip_address: r.destination,
                    subnet_mask: r.subnet_mask,
                    metric: 16,
                }),
            ),
{
}

} // verus!
